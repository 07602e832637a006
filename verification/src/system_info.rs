//! The "About this system" summary: named values about the software and hardware of
//! the machine, grouped into titled sections. Values that are missing, blank, or
//! firmware placeholders such as "To Be Filled By O.E.M." are left out.

use vstd::prelude::*;
use crate::text::{
    chars_of, decimal, hex, join_strings, join_with, push_decimal, push_hex, same_ignoring_ascii_case,
    eq_ignore_ascii_case, lemma_lex_asymmetric, lemma_lex_irreflexive, lemma_lex_total,
    lemma_lex_transitive, lex_lt, trim, trimmed, views, zero_padded,
};

verus! {

/// One named value of the summary.
#[derive(Clone, Debug)]
pub struct InfoEntry {
    pub name: String,
    pub value: String,
}

/// A titled group of entries.
#[derive(Clone, Debug)]
pub struct InfoSection {
    pub title: String,
    pub entries: Vec<InfoEntry>,
}

pub open spec fn entry_view(e: InfoEntry) -> (Seq<char>, Seq<char>) {
    (e.name@, e.value@)
}

pub open spec fn entries_view(v: Seq<InfoEntry>) -> Seq<(Seq<char>, Seq<char>)> {
    v.map_values(|e: InfoEntry| entry_view(e))
}

pub open spec fn section_view(s: InfoSection) -> (Seq<char>, Seq<(Seq<char>, Seq<char>)>) {
    (s.title@, entries_view(s.entries@))
}

pub open spec fn sections_view(v: Seq<InfoSection>) -> Seq<(Seq<char>, Seq<(Seq<char>, Seq<char>)>)> {
    v.map_values(|s: InfoSection| section_view(s))
}

pub open spec fn opt_view(o: Option<String>) -> Option<Seq<char>> {
    match o {
        Some(s) => Some(s@),
        None => None,
    }
}

/// Whether a trimmed value is one of the placeholders firmware writes for "unknown".
pub open spec fn is_placeholder(v: Seq<char>) -> bool {
    ||| eq_ignore_ascii_case(v, "none"@)
    ||| eq_ignore_ascii_case(v, "not specified"@)
    ||| eq_ignore_ascii_case(v, "to be filled by o.e.m."@)
}

/// Whether a value says something: it is not blank and not a placeholder.
pub open spec fn meaningful(v: Seq<char>) -> bool {
    trimmed(v).len() > 0 && !is_placeholder(trimmed(v))
}

/// `value` when it says something, else none. The value itself is kept untrimmed.
pub open spec fn cleaned(value: Option<Seq<char>>) -> Option<Seq<char>> {
    match value {
        Some(v) => if meaningful(v) {
            Some(v)
        } else {
            None
        },
        None => None,
    }
}

/// Keeps `value` only when it says something; see `meaningful`.
pub fn clean(value: Option<String>) -> (kept: Option<String>)
    ensures
        opt_view(kept) == cleaned(opt_view(value)),
{
    match value {
        Some(v) => {
            let keep = {
                let t = chars_of(trim(v.as_str()));
                t.len() > 0 && !same_ignoring_ascii_case(&t, "none") && !same_ignoring_ascii_case(
                    &t,
                    "not specified",
                ) && !same_ignoring_ascii_case(&t, "to be filled by o.e.m.")
            };
            if keep {
                Some(v)
            } else {
                None
            }
        },
        None => None,
    }
}

/// The values of `parts` that are there, in order.
pub open spec fn present_values(parts: Seq<Option<Seq<char>>>) -> Seq<Seq<char>>
    decreases parts.len(),
{
    if parts.len() == 0 {
        Seq::empty()
    } else {
        let rest = present_values(parts.drop_last());
        match parts.last() {
            Some(v) => rest.push(v),
            None => rest,
        }
    }
}

/// The values of `parts` that are there, separated by spaces; none when none is there.
pub open spec fn combined_spec(parts: Seq<Option<Seq<char>>>) -> Option<Seq<char>> {
    let values = present_values(parts);
    if values.len() == 0 {
        None
    } else {
        Some(join_with(values, " "@))
    }
}

pub open spec fn opt_views(parts: Seq<Option<String>>) -> Seq<Option<Seq<char>>> {
    parts.map_values(|o: Option<String>| opt_view(o))
}

/// The values of `parts` that are there, separated by spaces.
pub fn combined(parts: Vec<Option<String>>) -> (joined: Option<String>)
    ensures
        opt_view(joined) == combined_spec(opt_views(parts@)),
{
    let mut values: Vec<String> = Vec::new();
    let mut i: usize = 0;
    while i < parts.len()
        invariant
            i <= parts@.len(),
            views(values@) == present_values(opt_views(parts@).take(i as int)),
        decreases parts.len() - i,
    {
        let ghost t = opt_views(parts@).take(i + 1);
        assert(t.drop_last() =~= opt_views(parts@).take(i as int));
        let ghost before = values@;
        match &parts[i] {
            Some(v) => {
                values.push(v.clone());
                assert(views(values@) =~= views(before).push(v@));
            },
            None => {},
        }
        i += 1;
    }
    assert(opt_views(parts@).take(parts@.len() as int) =~= opt_views(parts@));
    if values.len() == 0 {
        None
    } else {
        Some(join_strings(&values, " "))
    }
}

/// The entry `name` shows for `value`: one entry when the value says something.
pub open spec fn entry_if(name: Seq<char>, value: Option<Seq<char>>) -> Seq<(Seq<char>, Seq<char>)> {
    match cleaned(value) {
        Some(v) => seq![(name, v)],
        None => Seq::empty(),
    }
}

/// A firmware fact as read from a sysfs file: the contents without surrounding white
/// space, kept only when they say something. None when the file could not be read.
pub fn sysfs_value(contents: Option<String>) -> (fact: Option<String>)
    ensures
        opt_view(fact) == cleaned(
            match contents {
                Some(c) => Some(trimmed(c@)),
                None => None,
            },
        ),
{
    match contents {
        Some(c) => clean(Some(String::from_str(trim(c.as_str())))),
        None => None,
    }
}

/// Adds the entry `name` when `value` says something.
pub fn push(entries: &mut Vec<InfoEntry>, name: &str, value: Option<String>)
    ensures
        entries_view(final(entries)@) == entries_view(old(entries)@) + entry_if(
            name@,
            opt_view(value),
        ),
{
    let ghost before = entries@;
    let ghost given = opt_view(value);
    let kept = clean(value);
    match kept {
        Some(v) => {
            let ghost kept_view = v@;
            entries.push(InfoEntry { name: String::from_str(name), value: v });
            assert(entries@ =~= before.push(entries@.last()));
            assert(entries_view(entries@) =~= entries_view(before) + seq![(name@, kept_view)]);
        },
        None => {
            assert(entries_view(entries@) =~= entries_view(before) + entry_if(name@, given));
        },
    }
}

fn copied(o: &Option<String>) -> (c: Option<String>)
    ensures
        opt_view(c) == opt_view(*o),
{
    match o {
        Some(s) => Some(s.clone()),
        None => None,
    }
}

pub open spec fn or_else(a: Option<Seq<char>>, b: Option<Seq<char>>) -> Option<Seq<char>> {
    if a is Some {
        a
    } else {
        b
    }
}

fn first_of(a: &Option<String>, b: &Option<String>) -> (c: Option<String>)
    ensures
        opt_view(c) == or_else(opt_view(*a), opt_view(*b)),
{
    match a {
        Some(s) => Some(s.clone()),
        None => copied(b),
    }
}

/// What the system reports about its operating system.
#[derive(Clone, Debug, Default)]
pub struct OsInfo {
    pub name: Option<String>,
    pub pretty_name: Option<String>,
    pub version: Option<String>,
    pub version_id: Option<String>,
    pub os_type: Option<String>,
    pub kernel_release: Option<String>,
    pub kernel_version: Option<String>,
    pub os_architecture: Option<String>,
    pub package_manager: Option<String>,
    pub package_manager_version: Option<String>,
}

/// What the system reports about its desktop environment.
#[derive(Clone, Debug, Default)]
pub struct DesktopInfo {
    pub desktop_environment: Option<String>,
    pub version: Option<String>,
    pub windowing_system: Option<String>,
    pub session_type: Option<String>,
    pub virtual_terminal: Option<String>,
}

/// What the system reports about the device itself.
#[derive(Clone, Debug, Default)]
pub struct DeviceInfo {
    pub hostname: Option<String>,
    pub vendor: Option<String>,
    pub model: Option<String>,
}

/// The software side of the summary.
#[derive(Clone, Debug, Default)]
pub struct AboutInfo {
    pub os_info: OsInfo,
    pub de_info: DesktopInfo,
    pub device_info: DeviceInfo,
}

/// The kernel line: the operating system type and the kernel release.
pub open spec fn kernel_release_spec(os: OsInfo) -> Option<Seq<char>> {
    combined_spec(seq![opt_view(os.os_type), opt_view(os.kernel_release)])
}

/// The operating system type and the kernel release, separated by a space.
pub fn format_kernel_release(os: &OsInfo) -> (line: Option<String>)
    ensures
        opt_view(line) == kernel_release_spec(*os),
{
    let parts = vec![copied(&os.os_type), copied(&os.kernel_release)];
    assert(opt_views(parts@) =~= seq![opt_view(os.os_type), opt_view(os.kernel_release)]);
    combined(parts)
}

/// The sections on the software of the system: system, kernel and desktop.
pub open spec fn software_sections_spec(about: AboutInfo) -> Seq<
    (Seq<char>, Seq<(Seq<char>, Seq<char>)>),
> {
    let os = about.os_info;
    let de = about.de_info;
    let device = about.device_info;
    seq![
        (
            "System"@,
            entry_if("Host Name"@, opt_view(device.hostname)) + entry_if(
                "Device"@,
                combined_spec(seq![opt_view(device.vendor), opt_view(device.model)]),
            ) + entry_if(
                "Operating System"@,
                or_else(opt_view(os.pretty_name), opt_view(os.name)),
            ) + entry_if("OS Version"@, or_else(opt_view(os.version_id), opt_view(os.version)))
                + entry_if("Architecture"@, opt_view(os.os_architecture)) + entry_if(
                "Package Manager"@,
                opt_view(os.package_manager),
            ) + entry_if("Package Manager Version"@, opt_view(os.package_manager_version)),
        ),
        (
            "Kernel"@,
            entry_if("Kernel"@, kernel_release_spec(os)) + entry_if(
                "Build"@,
                opt_view(os.kernel_version),
            ),
        ),
        (
            "Desktop Environment"@,
            entry_if("Desktop"@, opt_view(de.desktop_environment)) + entry_if(
                "Desktop Version"@,
                opt_view(de.version),
            ) + entry_if("Windowing System"@, opt_view(de.windowing_system)) + entry_if(
                "Session Type"@,
                opt_view(de.session_type),
            ) + entry_if("Virtual Terminal"@, opt_view(de.virtual_terminal)),
        ),
    ]
}

/// Two optional values as one line: both with a space between them, or the one that
/// is there.
pub open spec fn spaced_pair(a: Option<Seq<char>>, b: Option<Seq<char>>) -> Option<Seq<char>> {
    match (a, b) {
        (Some(x), Some(y)) => Some(x + " "@ + y),
        (Some(x), None) => Some(x),
        (None, Some(y)) => Some(y),
        (None, None) => None,
    }
}

proof fn lemma_combined_pair(a: Option<Seq<char>>, b: Option<Seq<char>>)
    ensures
        combined_spec(seq![a, b]) == spaced_pair(a, b),
{
    let parts = seq![a, b];
    assert(parts.drop_last() =~= seq![a]);
    assert(seq![a].drop_last() =~= Seq::<Option<Seq<char>>>::empty());
    assert(present_values(Seq::<Option<Seq<char>>>::empty()) == Seq::<Seq<char>>::empty());
    assert(seq![a].last() == a);
    assert(parts.last() == b);
    let first = present_values(seq![a]);
    let values = present_values(parts);
    if let Some(x) = a {
        assert(first =~= seq![x]);
    } else {
        assert(first =~= Seq::<Seq<char>>::empty());
    }
    match (a, b) {
        (Some(x), Some(y)) => {
            assert(values =~= seq![x, y]);
            assert(values.drop_last() =~= seq![x]);
            assert(join_with(values, " "@) == join_with(seq![x], " "@) + " "@ + y);
        },
        (Some(x), None) => {
            assert(values =~= seq![x]);
        },
        (None, Some(y)) => {
            assert(values =~= seq![y]);
        },
        (None, None) => {
            assert(values =~= Seq::<Seq<char>>::empty());
        },
    }
}

proof fn lemma_entry_if_contains(name: Seq<char>, value: Option<Seq<char>>, other: Seq<char>, v: Seq<char>)
    ensures
        entry_if(name, value).contains((other, v)) <==> (other == name && cleaned(value) == Some(v)),
{
    if cleaned(value) is Some {
        assert(entry_if(name, value)[0] == (name, cleaned(value)->0));
    }
}

proof fn lemma_concat_contains(a: Seq<(Seq<char>, Seq<char>)>, b: Seq<(Seq<char>, Seq<char>)>, x: (Seq<char>, Seq<char>))
    ensures
        (a + b).contains(x) <==> a.contains(x) || b.contains(x),
{
    if a.contains(x) {
        let i = choose|i: int| 0 <= i < a.len() && a[i] == x;
        assert((a + b)[i] == x);
    }
    if b.contains(x) {
        let i = choose|i: int| 0 <= i < b.len() && b[i] == x;
        assert((a + b)[a.len() + i] == x);
    }
    if (a + b).contains(x) {
        let i = choose|i: int| 0 <= i < (a + b).len() && (a + b)[i] == x;
        if i < a.len() {
            assert(a[i] == x);
        } else {
            assert(b[i - a.len()] == x);
        }
    }
}

/// The kernel section of the software sections: the kernel line shows the operating
/// system type and the kernel release, and the build line the kernel version, each
/// only when it says something.
pub proof fn lemma_kernel_section(about: AboutInfo)
    ensures
        ({
            let os = about.os_info;
            let section = software_sections_spec(about)[1];
            &&& software_sections_spec(about).len() == 3
            &&& section.0 == "Kernel"@
            &&& section.1.len() <= 2
            &&& forall|v: Seq<char>| #[trigger] section.1.contains(("Build"@, v)) <==> cleaned(
                opt_view(os.kernel_version),
            ) == Some(v)
            &&& forall|v: Seq<char>| #[trigger] section.1.contains(("Kernel"@, v)) <==> cleaned(
                spaced_pair(opt_view(os.os_type), opt_view(os.kernel_release)),
            ) == Some(v)
        }),
{
    let os = about.os_info;
    reveal_strlit("Kernel");
    reveal_strlit("Build");
    assert("Kernel"@.len() != "Build"@.len());
    lemma_combined_pair(opt_view(os.os_type), opt_view(os.kernel_release));
    let a = entry_if("Kernel"@, kernel_release_spec(os));
    let b = entry_if("Build"@, opt_view(os.kernel_version));
    assert forall|v: Seq<char>| #[trigger] (a + b).contains(("Build"@, v)) <==> cleaned(
        opt_view(os.kernel_version),
    ) == Some(v) by {
        lemma_concat_contains(a, b, ("Build"@, v));
        lemma_entry_if_contains("Kernel"@, kernel_release_spec(os), "Build"@, v);
        lemma_entry_if_contains("Build"@, opt_view(os.kernel_version), "Build"@, v);
    }
    assert forall|v: Seq<char>| #[trigger] (a + b).contains(("Kernel"@, v)) <==> cleaned(
        spaced_pair(opt_view(os.os_type), opt_view(os.kernel_release)),
    ) == Some(v) by {
        lemma_concat_contains(a, b, ("Kernel"@, v));
        lemma_entry_if_contains("Kernel"@, kernel_release_spec(os), "Kernel"@, v);
        lemma_entry_if_contains("Build"@, opt_view(os.kernel_version), "Kernel"@, v);
    }
}

/// The system section of the software sections: the host name, the device's vendor and
/// model, the operating system's pretty name (else its name), its version id (else its
/// version), the architecture and the package manager with its version, each entry
/// only when its value says something.
pub proof fn lemma_system_section(about: AboutInfo)
    ensures
        ({
            let section = software_sections_spec(about)[0];
            &&& section.0 == "System"@
            &&& forall|v: Seq<char>| #[trigger] section.1.contains(("Host Name"@, v)) <==> cleaned(
                opt_view(about.device_info.hostname),
            ) == Some(v)
            &&& forall|v: Seq<char>| #[trigger] section.1.contains(("Device"@, v)) <==> cleaned(
                spaced_pair(opt_view(about.device_info.vendor), opt_view(about.device_info.model)),
            ) == Some(v)
            &&& forall|v: Seq<char>| #[trigger] section.1.contains(("Operating System"@, v)) <==> cleaned(
                if about.os_info.pretty_name is Some { opt_view(about.os_info.pretty_name) } else { opt_view(about.os_info.name) },
            ) == Some(v)
            &&& forall|v: Seq<char>| #[trigger] section.1.contains(("OS Version"@, v)) <==> cleaned(
                if about.os_info.version_id is Some { opt_view(about.os_info.version_id) } else { opt_view(about.os_info.version) },
            ) == Some(v)
            &&& forall|v: Seq<char>| #[trigger] section.1.contains(("Architecture"@, v)) <==> cleaned(
                opt_view(about.os_info.os_architecture),
            ) == Some(v)
            &&& forall|v: Seq<char>| #[trigger] section.1.contains(("Package Manager"@, v)) <==> cleaned(
                opt_view(about.os_info.package_manager),
            ) == Some(v)
            &&& forall|v: Seq<char>| #[trigger] section.1.contains(("Package Manager Version"@, v)) <==> cleaned(
                opt_view(about.os_info.package_manager_version),
            ) == Some(v)
        }),
{
    let os = about.os_info;
    let de = about.de_info;
    let device = about.device_info;
    reveal_strlit("Host Name");
    reveal_strlit("Device");
    reveal_strlit("Operating System");
    reveal_strlit("OS Version");
    reveal_strlit("Architecture");
    reveal_strlit("Package Manager");
    reveal_strlit("Package Manager Version");
    reveal_strlit("System");
    assert("Host Name"@.len() != "Device"@.len());
    assert("Host Name"@.len() != "Operating System"@.len());
    assert("Host Name"@.len() != "OS Version"@.len());
    assert("Host Name"@.len() != "Architecture"@.len());
    assert("Host Name"@.len() != "Package Manager"@.len());
    assert("Host Name"@.len() != "Package Manager Version"@.len());
    assert("Device"@.len() != "Operating System"@.len());
    assert("Device"@.len() != "OS Version"@.len());
    assert("Device"@.len() != "Architecture"@.len());
    assert("Device"@.len() != "Package Manager"@.len());
    assert("Device"@.len() != "Package Manager Version"@.len());
    assert("Operating System"@.len() != "OS Version"@.len());
    assert("Operating System"@.len() != "Architecture"@.len());
    assert("Operating System"@.len() != "Package Manager"@.len());
    assert("Operating System"@.len() != "Package Manager Version"@.len());
    assert("OS Version"@.len() != "Architecture"@.len());
    assert("OS Version"@.len() != "Package Manager"@.len());
    assert("OS Version"@.len() != "Package Manager Version"@.len());
    assert("Architecture"@.len() != "Package Manager"@.len());
    assert("Architecture"@.len() != "Package Manager Version"@.len());
    assert("Package Manager"@.len() != "Package Manager Version"@.len());
    lemma_combined_pair(opt_view(device.vendor), opt_view(device.model));
    let e0 = entry_if("Host Name"@, opt_view(device.hostname));
    let e1 = entry_if("Device"@, combined_spec(seq![opt_view(device.vendor), opt_view(device.model)]));
    let e2 = entry_if("Operating System"@, or_else(opt_view(os.pretty_name), opt_view(os.name)));
    let e3 = entry_if("OS Version"@, or_else(opt_view(os.version_id), opt_view(os.version)));
    let e4 = entry_if("Architecture"@, opt_view(os.os_architecture));
    let e5 = entry_if("Package Manager"@, opt_view(os.package_manager));
    let e6 = entry_if("Package Manager Version"@, opt_view(os.package_manager_version));
    let s0 = e0;
    let s1 = e0 + e1;
    let s2 = e0 + e1 + e2;
    let s3 = e0 + e1 + e2 + e3;
    let s4 = e0 + e1 + e2 + e3 + e4;
    let s5 = e0 + e1 + e2 + e3 + e4 + e5;
    let s6 = e0 + e1 + e2 + e3 + e4 + e5 + e6;
    assert forall|v: Seq<char>| #[trigger] s6.contains(("Host Name"@, v)) <==> cleaned(
        opt_view(about.device_info.hostname),
    ) == Some(v) by {
        lemma_concat_contains(s0, e1, ("Host Name"@, v));
        lemma_concat_contains(s1, e2, ("Host Name"@, v));
        lemma_concat_contains(s2, e3, ("Host Name"@, v));
        lemma_concat_contains(s3, e4, ("Host Name"@, v));
        lemma_concat_contains(s4, e5, ("Host Name"@, v));
        lemma_concat_contains(s5, e6, ("Host Name"@, v));
        lemma_entry_if_contains("Host Name"@, opt_view(device.hostname), "Host Name"@, v);
        lemma_entry_if_contains("Device"@, combined_spec(seq![opt_view(device.vendor), opt_view(device.model)]), "Host Name"@, v);
        lemma_entry_if_contains("Operating System"@, or_else(opt_view(os.pretty_name), opt_view(os.name)), "Host Name"@, v);
        lemma_entry_if_contains("OS Version"@, or_else(opt_view(os.version_id), opt_view(os.version)), "Host Name"@, v);
        lemma_entry_if_contains("Architecture"@, opt_view(os.os_architecture), "Host Name"@, v);
        lemma_entry_if_contains("Package Manager"@, opt_view(os.package_manager), "Host Name"@, v);
        lemma_entry_if_contains("Package Manager Version"@, opt_view(os.package_manager_version), "Host Name"@, v);
    }
    assert forall|v: Seq<char>| #[trigger] s6.contains(("Device"@, v)) <==> cleaned(
        spaced_pair(opt_view(about.device_info.vendor), opt_view(about.device_info.model)),
    ) == Some(v) by {
        lemma_concat_contains(s0, e1, ("Device"@, v));
        lemma_concat_contains(s1, e2, ("Device"@, v));
        lemma_concat_contains(s2, e3, ("Device"@, v));
        lemma_concat_contains(s3, e4, ("Device"@, v));
        lemma_concat_contains(s4, e5, ("Device"@, v));
        lemma_concat_contains(s5, e6, ("Device"@, v));
        lemma_entry_if_contains("Host Name"@, opt_view(device.hostname), "Device"@, v);
        lemma_entry_if_contains("Device"@, combined_spec(seq![opt_view(device.vendor), opt_view(device.model)]), "Device"@, v);
        lemma_entry_if_contains("Operating System"@, or_else(opt_view(os.pretty_name), opt_view(os.name)), "Device"@, v);
        lemma_entry_if_contains("OS Version"@, or_else(opt_view(os.version_id), opt_view(os.version)), "Device"@, v);
        lemma_entry_if_contains("Architecture"@, opt_view(os.os_architecture), "Device"@, v);
        lemma_entry_if_contains("Package Manager"@, opt_view(os.package_manager), "Device"@, v);
        lemma_entry_if_contains("Package Manager Version"@, opt_view(os.package_manager_version), "Device"@, v);
    }
    assert forall|v: Seq<char>| #[trigger] s6.contains(("Operating System"@, v)) <==> cleaned(
        if about.os_info.pretty_name is Some { opt_view(about.os_info.pretty_name) } else { opt_view(about.os_info.name) },
    ) == Some(v) by {
        lemma_concat_contains(s0, e1, ("Operating System"@, v));
        lemma_concat_contains(s1, e2, ("Operating System"@, v));
        lemma_concat_contains(s2, e3, ("Operating System"@, v));
        lemma_concat_contains(s3, e4, ("Operating System"@, v));
        lemma_concat_contains(s4, e5, ("Operating System"@, v));
        lemma_concat_contains(s5, e6, ("Operating System"@, v));
        lemma_entry_if_contains("Host Name"@, opt_view(device.hostname), "Operating System"@, v);
        lemma_entry_if_contains("Device"@, combined_spec(seq![opt_view(device.vendor), opt_view(device.model)]), "Operating System"@, v);
        lemma_entry_if_contains("Operating System"@, or_else(opt_view(os.pretty_name), opt_view(os.name)), "Operating System"@, v);
        lemma_entry_if_contains("OS Version"@, or_else(opt_view(os.version_id), opt_view(os.version)), "Operating System"@, v);
        lemma_entry_if_contains("Architecture"@, opt_view(os.os_architecture), "Operating System"@, v);
        lemma_entry_if_contains("Package Manager"@, opt_view(os.package_manager), "Operating System"@, v);
        lemma_entry_if_contains("Package Manager Version"@, opt_view(os.package_manager_version), "Operating System"@, v);
    }
    assert forall|v: Seq<char>| #[trigger] s6.contains(("OS Version"@, v)) <==> cleaned(
        if about.os_info.version_id is Some { opt_view(about.os_info.version_id) } else { opt_view(about.os_info.version) },
    ) == Some(v) by {
        lemma_concat_contains(s0, e1, ("OS Version"@, v));
        lemma_concat_contains(s1, e2, ("OS Version"@, v));
        lemma_concat_contains(s2, e3, ("OS Version"@, v));
        lemma_concat_contains(s3, e4, ("OS Version"@, v));
        lemma_concat_contains(s4, e5, ("OS Version"@, v));
        lemma_concat_contains(s5, e6, ("OS Version"@, v));
        lemma_entry_if_contains("Host Name"@, opt_view(device.hostname), "OS Version"@, v);
        lemma_entry_if_contains("Device"@, combined_spec(seq![opt_view(device.vendor), opt_view(device.model)]), "OS Version"@, v);
        lemma_entry_if_contains("Operating System"@, or_else(opt_view(os.pretty_name), opt_view(os.name)), "OS Version"@, v);
        lemma_entry_if_contains("OS Version"@, or_else(opt_view(os.version_id), opt_view(os.version)), "OS Version"@, v);
        lemma_entry_if_contains("Architecture"@, opt_view(os.os_architecture), "OS Version"@, v);
        lemma_entry_if_contains("Package Manager"@, opt_view(os.package_manager), "OS Version"@, v);
        lemma_entry_if_contains("Package Manager Version"@, opt_view(os.package_manager_version), "OS Version"@, v);
    }
    assert forall|v: Seq<char>| #[trigger] s6.contains(("Architecture"@, v)) <==> cleaned(
        opt_view(about.os_info.os_architecture),
    ) == Some(v) by {
        lemma_concat_contains(s0, e1, ("Architecture"@, v));
        lemma_concat_contains(s1, e2, ("Architecture"@, v));
        lemma_concat_contains(s2, e3, ("Architecture"@, v));
        lemma_concat_contains(s3, e4, ("Architecture"@, v));
        lemma_concat_contains(s4, e5, ("Architecture"@, v));
        lemma_concat_contains(s5, e6, ("Architecture"@, v));
        lemma_entry_if_contains("Host Name"@, opt_view(device.hostname), "Architecture"@, v);
        lemma_entry_if_contains("Device"@, combined_spec(seq![opt_view(device.vendor), opt_view(device.model)]), "Architecture"@, v);
        lemma_entry_if_contains("Operating System"@, or_else(opt_view(os.pretty_name), opt_view(os.name)), "Architecture"@, v);
        lemma_entry_if_contains("OS Version"@, or_else(opt_view(os.version_id), opt_view(os.version)), "Architecture"@, v);
        lemma_entry_if_contains("Architecture"@, opt_view(os.os_architecture), "Architecture"@, v);
        lemma_entry_if_contains("Package Manager"@, opt_view(os.package_manager), "Architecture"@, v);
        lemma_entry_if_contains("Package Manager Version"@, opt_view(os.package_manager_version), "Architecture"@, v);
    }
    assert forall|v: Seq<char>| #[trigger] s6.contains(("Package Manager"@, v)) <==> cleaned(
        opt_view(about.os_info.package_manager),
    ) == Some(v) by {
        lemma_concat_contains(s0, e1, ("Package Manager"@, v));
        lemma_concat_contains(s1, e2, ("Package Manager"@, v));
        lemma_concat_contains(s2, e3, ("Package Manager"@, v));
        lemma_concat_contains(s3, e4, ("Package Manager"@, v));
        lemma_concat_contains(s4, e5, ("Package Manager"@, v));
        lemma_concat_contains(s5, e6, ("Package Manager"@, v));
        lemma_entry_if_contains("Host Name"@, opt_view(device.hostname), "Package Manager"@, v);
        lemma_entry_if_contains("Device"@, combined_spec(seq![opt_view(device.vendor), opt_view(device.model)]), "Package Manager"@, v);
        lemma_entry_if_contains("Operating System"@, or_else(opt_view(os.pretty_name), opt_view(os.name)), "Package Manager"@, v);
        lemma_entry_if_contains("OS Version"@, or_else(opt_view(os.version_id), opt_view(os.version)), "Package Manager"@, v);
        lemma_entry_if_contains("Architecture"@, opt_view(os.os_architecture), "Package Manager"@, v);
        lemma_entry_if_contains("Package Manager"@, opt_view(os.package_manager), "Package Manager"@, v);
        lemma_entry_if_contains("Package Manager Version"@, opt_view(os.package_manager_version), "Package Manager"@, v);
    }
    assert forall|v: Seq<char>| #[trigger] s6.contains(("Package Manager Version"@, v)) <==> cleaned(
        opt_view(about.os_info.package_manager_version),
    ) == Some(v) by {
        lemma_concat_contains(s0, e1, ("Package Manager Version"@, v));
        lemma_concat_contains(s1, e2, ("Package Manager Version"@, v));
        lemma_concat_contains(s2, e3, ("Package Manager Version"@, v));
        lemma_concat_contains(s3, e4, ("Package Manager Version"@, v));
        lemma_concat_contains(s4, e5, ("Package Manager Version"@, v));
        lemma_concat_contains(s5, e6, ("Package Manager Version"@, v));
        lemma_entry_if_contains("Host Name"@, opt_view(device.hostname), "Package Manager Version"@, v);
        lemma_entry_if_contains("Device"@, combined_spec(seq![opt_view(device.vendor), opt_view(device.model)]), "Package Manager Version"@, v);
        lemma_entry_if_contains("Operating System"@, or_else(opt_view(os.pretty_name), opt_view(os.name)), "Package Manager Version"@, v);
        lemma_entry_if_contains("OS Version"@, or_else(opt_view(os.version_id), opt_view(os.version)), "Package Manager Version"@, v);
        lemma_entry_if_contains("Architecture"@, opt_view(os.os_architecture), "Package Manager Version"@, v);
        lemma_entry_if_contains("Package Manager"@, opt_view(os.package_manager), "Package Manager Version"@, v);
        lemma_entry_if_contains("Package Manager Version"@, opt_view(os.package_manager_version), "Package Manager Version"@, v);
    }
}

/// The desktop section of the software sections: the desktop environment, its version,
/// the windowing system, the session type and the virtual terminal, each entry only
/// when its value says something.
pub proof fn lemma_desktop_section(about: AboutInfo)
    ensures
        ({
            let section = software_sections_spec(about)[2];
            &&& section.0 == "Desktop Environment"@
            &&& forall|v: Seq<char>| #[trigger] section.1.contains(("Desktop"@, v)) <==> cleaned(
                opt_view(about.de_info.desktop_environment),
            ) == Some(v)
            &&& forall|v: Seq<char>| #[trigger] section.1.contains(("Desktop Version"@, v)) <==> cleaned(
                opt_view(about.de_info.version),
            ) == Some(v)
            &&& forall|v: Seq<char>| #[trigger] section.1.contains(("Windowing System"@, v)) <==> cleaned(
                opt_view(about.de_info.windowing_system),
            ) == Some(v)
            &&& forall|v: Seq<char>| #[trigger] section.1.contains(("Session Type"@, v)) <==> cleaned(
                opt_view(about.de_info.session_type),
            ) == Some(v)
            &&& forall|v: Seq<char>| #[trigger] section.1.contains(("Virtual Terminal"@, v)) <==> cleaned(
                opt_view(about.de_info.virtual_terminal),
            ) == Some(v)
        }),
{
    let os = about.os_info;
    let de = about.de_info;
    let device = about.device_info;
    reveal_strlit("Desktop");
    reveal_strlit("Desktop Version");
    reveal_strlit("Windowing System");
    reveal_strlit("Session Type");
    reveal_strlit("Virtual Terminal");
    reveal_strlit("Desktop Environment");
    assert("Desktop"@.len() != "Desktop Version"@.len());
    assert("Desktop"@.len() != "Windowing System"@.len());
    assert("Desktop"@.len() != "Session Type"@.len());
    assert("Desktop"@.len() != "Virtual Terminal"@.len());
    assert("Desktop Version"@.len() != "Windowing System"@.len());
    assert("Desktop Version"@.len() != "Session Type"@.len());
    assert("Desktop Version"@.len() != "Virtual Terminal"@.len());
    assert("Windowing System"@.len() != "Session Type"@.len());
    assert("Windowing System"@[0] != "Virtual Terminal"@[0]);
    assert("Session Type"@.len() != "Virtual Terminal"@.len());
    let e0 = entry_if("Desktop"@, opt_view(de.desktop_environment));
    let e1 = entry_if("Desktop Version"@, opt_view(de.version));
    let e2 = entry_if("Windowing System"@, opt_view(de.windowing_system));
    let e3 = entry_if("Session Type"@, opt_view(de.session_type));
    let e4 = entry_if("Virtual Terminal"@, opt_view(de.virtual_terminal));
    let s0 = e0;
    let s1 = e0 + e1;
    let s2 = e0 + e1 + e2;
    let s3 = e0 + e1 + e2 + e3;
    let s4 = e0 + e1 + e2 + e3 + e4;
    assert forall|v: Seq<char>| #[trigger] s4.contains(("Desktop"@, v)) <==> cleaned(
        opt_view(about.de_info.desktop_environment),
    ) == Some(v) by {
        lemma_concat_contains(s0, e1, ("Desktop"@, v));
        lemma_concat_contains(s1, e2, ("Desktop"@, v));
        lemma_concat_contains(s2, e3, ("Desktop"@, v));
        lemma_concat_contains(s3, e4, ("Desktop"@, v));
        lemma_entry_if_contains("Desktop"@, opt_view(de.desktop_environment), "Desktop"@, v);
        lemma_entry_if_contains("Desktop Version"@, opt_view(de.version), "Desktop"@, v);
        lemma_entry_if_contains("Windowing System"@, opt_view(de.windowing_system), "Desktop"@, v);
        lemma_entry_if_contains("Session Type"@, opt_view(de.session_type), "Desktop"@, v);
        lemma_entry_if_contains("Virtual Terminal"@, opt_view(de.virtual_terminal), "Desktop"@, v);
    }
    assert forall|v: Seq<char>| #[trigger] s4.contains(("Desktop Version"@, v)) <==> cleaned(
        opt_view(about.de_info.version),
    ) == Some(v) by {
        lemma_concat_contains(s0, e1, ("Desktop Version"@, v));
        lemma_concat_contains(s1, e2, ("Desktop Version"@, v));
        lemma_concat_contains(s2, e3, ("Desktop Version"@, v));
        lemma_concat_contains(s3, e4, ("Desktop Version"@, v));
        lemma_entry_if_contains("Desktop"@, opt_view(de.desktop_environment), "Desktop Version"@, v);
        lemma_entry_if_contains("Desktop Version"@, opt_view(de.version), "Desktop Version"@, v);
        lemma_entry_if_contains("Windowing System"@, opt_view(de.windowing_system), "Desktop Version"@, v);
        lemma_entry_if_contains("Session Type"@, opt_view(de.session_type), "Desktop Version"@, v);
        lemma_entry_if_contains("Virtual Terminal"@, opt_view(de.virtual_terminal), "Desktop Version"@, v);
    }
    assert forall|v: Seq<char>| #[trigger] s4.contains(("Windowing System"@, v)) <==> cleaned(
        opt_view(about.de_info.windowing_system),
    ) == Some(v) by {
        lemma_concat_contains(s0, e1, ("Windowing System"@, v));
        lemma_concat_contains(s1, e2, ("Windowing System"@, v));
        lemma_concat_contains(s2, e3, ("Windowing System"@, v));
        lemma_concat_contains(s3, e4, ("Windowing System"@, v));
        lemma_entry_if_contains("Desktop"@, opt_view(de.desktop_environment), "Windowing System"@, v);
        lemma_entry_if_contains("Desktop Version"@, opt_view(de.version), "Windowing System"@, v);
        lemma_entry_if_contains("Windowing System"@, opt_view(de.windowing_system), "Windowing System"@, v);
        lemma_entry_if_contains("Session Type"@, opt_view(de.session_type), "Windowing System"@, v);
        lemma_entry_if_contains("Virtual Terminal"@, opt_view(de.virtual_terminal), "Windowing System"@, v);
    }
    assert forall|v: Seq<char>| #[trigger] s4.contains(("Session Type"@, v)) <==> cleaned(
        opt_view(about.de_info.session_type),
    ) == Some(v) by {
        lemma_concat_contains(s0, e1, ("Session Type"@, v));
        lemma_concat_contains(s1, e2, ("Session Type"@, v));
        lemma_concat_contains(s2, e3, ("Session Type"@, v));
        lemma_concat_contains(s3, e4, ("Session Type"@, v));
        lemma_entry_if_contains("Desktop"@, opt_view(de.desktop_environment), "Session Type"@, v);
        lemma_entry_if_contains("Desktop Version"@, opt_view(de.version), "Session Type"@, v);
        lemma_entry_if_contains("Windowing System"@, opt_view(de.windowing_system), "Session Type"@, v);
        lemma_entry_if_contains("Session Type"@, opt_view(de.session_type), "Session Type"@, v);
        lemma_entry_if_contains("Virtual Terminal"@, opt_view(de.virtual_terminal), "Session Type"@, v);
    }
    assert forall|v: Seq<char>| #[trigger] s4.contains(("Virtual Terminal"@, v)) <==> cleaned(
        opt_view(about.de_info.virtual_terminal),
    ) == Some(v) by {
        lemma_concat_contains(s0, e1, ("Virtual Terminal"@, v));
        lemma_concat_contains(s1, e2, ("Virtual Terminal"@, v));
        lemma_concat_contains(s2, e3, ("Virtual Terminal"@, v));
        lemma_concat_contains(s3, e4, ("Virtual Terminal"@, v));
        lemma_entry_if_contains("Desktop"@, opt_view(de.desktop_environment), "Virtual Terminal"@, v);
        lemma_entry_if_contains("Desktop Version"@, opt_view(de.version), "Virtual Terminal"@, v);
        lemma_entry_if_contains("Windowing System"@, opt_view(de.windowing_system), "Virtual Terminal"@, v);
        lemma_entry_if_contains("Session Type"@, opt_view(de.session_type), "Virtual Terminal"@, v);
        lemma_entry_if_contains("Virtual Terminal"@, opt_view(de.virtual_terminal), "Virtual Terminal"@, v);
    }
}

fn section(title: &str, entries: Vec<InfoEntry>) -> (s: InfoSection)
    ensures
        section_view(s) == (title@, entries_view(entries@)),
{
    InfoSection { title: String::from_str(title), entries }
}

/// The sections on the software of the system; see `software_sections_spec`.
pub fn software_sections(about: &AboutInfo) -> (sections: Vec<InfoSection>)
    ensures
        sections_view(sections@) == software_sections_spec(*about),
{
    let os = &about.os_info;
    let de = &about.de_info;
    let device = &about.device_info;
    let mut result: Vec<InfoSection> = Vec::new();

    let mut system: Vec<InfoEntry> = Vec::new();
    push(&mut system, "Host Name", copied(&device.hostname));
    let device_parts = vec![copied(&device.vendor), copied(&device.model)];
    assert(opt_views(device_parts@) =~= seq![opt_view(device.vendor), opt_view(device.model)]);
    push(&mut system, "Device", combined(device_parts));
    push(&mut system, "Operating System", first_of(&os.pretty_name, &os.name));
    push(&mut system, "OS Version", first_of(&os.version_id, &os.version));
    push(&mut system, "Architecture", copied(&os.os_architecture));
    push(&mut system, "Package Manager", copied(&os.package_manager));
    push(&mut system, "Package Manager Version", copied(&os.package_manager_version));
    result.push(section("System", system));

    let mut kernel: Vec<InfoEntry> = Vec::new();
    push(&mut kernel, "Kernel", format_kernel_release(os));
    push(&mut kernel, "Build", copied(&os.kernel_version));
    result.push(section("Kernel", kernel));

    let mut desktop: Vec<InfoEntry> = Vec::new();
    push(&mut desktop, "Desktop", copied(&de.desktop_environment));
    push(&mut desktop, "Desktop Version", copied(&de.version));
    push(&mut desktop, "Windowing System", copied(&de.windowing_system));
    push(&mut desktop, "Session Type", copied(&de.session_type));
    push(&mut desktop, "Virtual Terminal", copied(&de.virtual_terminal));
    result.push(section("Desktop Environment", desktop));

    assert(sections_view(result@) =~= software_sections_spec(*about));
    result
}

/// A quantity together with how it reads to a person, such as 17179869184 bytes read
/// as "16.0 GiB".
#[derive(Clone, Debug)]
pub struct Measured {
    pub value: u64,
    pub text: String,
}

/// The reading of `m` when it is above zero.
pub open spec fn positive_text(m: Option<Measured>) -> Option<Seq<char>> {
    match m {
        Some(m) => if m.value > 0 {
            Some(m.text@)
        } else {
            None
        },
        None => None,
    }
}

/// The kinds of drive the summary names.
#[derive(Clone, Copy, Debug, PartialEq, Eq, Structural)]
pub enum DiskKind {
    Hdd,
    Ssd,
    NvMe,
    EMmc,
    Sd,
    IScsi,
    Optical,
    Floppy,
    ThumbDrive,
}

/// The name the summary gives a kind of drive.
pub open spec fn disk_kind_label(kind: DiskKind) -> Seq<char> {
    match kind {
        DiskKind::Hdd => "HDD"@,
        DiskKind::Ssd => "SSD"@,
        DiskKind::NvMe => "NVMe"@,
        DiskKind::EMmc => "eMMC"@,
        DiskKind::Sd => "SD"@,
        DiskKind::IScsi => "iSCSI"@,
        DiskKind::Optical => "Optical"@,
        DiskKind::Floppy => "Floppy"@,
        DiskKind::ThumbDrive => "Thumb Drive"@,
    }
}

/// The name of a kind of drive, none when the kind is unknown.
pub fn disk_kind(kind: Option<DiskKind>) -> (label: Option<&'static str>)
    ensures
        label is Some <==> kind is Some,
        kind is Some ==> label->0@ == disk_kind_label(kind->0),
{
    match kind {
        Some(DiskKind::Hdd) => Some("HDD"),
        Some(DiskKind::Ssd) => Some("SSD"),
        Some(DiskKind::NvMe) => Some("NVMe"),
        Some(DiskKind::EMmc) => Some("eMMC"),
        Some(DiskKind::Sd) => Some("SD"),
        Some(DiskKind::IScsi) => Some("iSCSI"),
        Some(DiskKind::Optical) => Some("Optical"),
        Some(DiskKind::Floppy) => Some("Floppy"),
        Some(DiskKind::ThumbDrive) => Some("Thumb Drive"),
        None => None,
    }
}

/// The values the firmware describes the board and itself with, as read from
/// `/sys/class/dmi/id` and kept only when they say something.
#[derive(Clone, Debug, Default)]
pub struct FirmwareFacts {
    pub board_vendor: Option<String>,
    pub board_name: Option<String>,
    pub board_version: Option<String>,
    pub sys_vendor: Option<String>,
    pub product_name: Option<String>,
    pub bios_vendor: Option<String>,
    pub bios_version: Option<String>,
    pub bios_date: Option<String>,
    pub bios_release: Option<String>,
}

/// What is known of the processor.
#[derive(Clone, Debug)]
pub struct CpuFacts {
    pub name: Option<String>,
    pub logical_processors: u64,
    pub socket_count: Option<u64>,
    pub frequency_driver: Option<String>,
    /// The base frequency in kHz, and as it reads in GHz.
    pub base_frequency: Option<Measured>,
    pub virtualization_technology: Option<String>,
    pub l1_combined_cache: Option<Measured>,
    pub l2_cache: Option<Measured>,
    pub l3_cache: Option<Measured>,
}

/// One installed memory module.
#[derive(Clone, Debug)]
pub struct MemoryModule {
    pub size: Measured,
    pub ram_type: String,
    /// Speed in MT/s, 0 when unknown.
    pub speed: u64,
    pub form_factor: String,
    pub locator: String,
}

/// What is known of the memory.
#[derive(Clone, Debug)]
pub struct MemoryFacts {
    pub mem_total: Measured,
    pub max_devices: u64,
    pub devices: Vec<MemoryModule>,
}

/// What is known of one GPU.
#[derive(Clone, Debug)]
pub struct GpuFacts {
    pub id: String,
    pub vendor_id: u32,
    pub device_id: u32,
    pub device_name: Option<String>,
    pub total_memory: Option<Measured>,
    pub max_pcie_gen: Option<u32>,
    pub max_pcie_lanes: Option<u32>,
}

/// What is known of one drive.
#[derive(Clone, Debug)]
pub struct DiskFacts {
    pub id: String,
    pub model: Option<String>,
    pub capacity: Measured,
    pub kind: Option<DiskKind>,
    pub is_system: bool,
}

/// The hardware side of the summary.
#[derive(Clone, Debug)]
pub struct HardwareFacts {
    pub firmware: FirmwareFacts,
    pub cpu: CpuFacts,
    pub memory: MemoryFacts,
    pub gpus: Vec<GpuFacts>,
    pub disks: Vec<DiskFacts>,
}

/// The entries of the motherboard section.
pub open spec fn board_entries(fw: FirmwareFacts) -> Seq<(Seq<char>, Seq<char>)> {
    entry_if("Manufacturer"@, opt_view(fw.board_vendor)) + entry_if(
        "Model"@,
        opt_view(fw.board_name),
    ) + entry_if("Revision"@, opt_view(fw.board_version)) + entry_if(
        "System Product"@,
        combined_spec(seq![opt_view(fw.sys_vendor), opt_view(fw.product_name)]),
    )
}

/// The entries of the firmware section.
pub open spec fn firmware_entries(fw: FirmwareFacts) -> Seq<(Seq<char>, Seq<char>)> {
    entry_if("Vendor"@, opt_view(fw.bios_vendor)) + entry_if(
        "Version"@,
        opt_view(fw.bios_version),
    ) + entry_if("Release Date"@, opt_view(fw.bios_date)) + entry_if(
        "BIOS Release"@,
        opt_view(fw.bios_release),
    )
}

/// The motherboard section: the board's vendor, name and version, and the system's
/// vendor and product name together, each entry only when its value says something.
pub proof fn lemma_board_entries(fw: FirmwareFacts)
    ensures
        ({
            let entries = board_entries(fw);
            &&& forall|v: Seq<char>| #[trigger] entries.contains(("Manufacturer"@, v)) <==> cleaned(
                opt_view(fw.board_vendor),
            ) == Some(v)
            &&& forall|v: Seq<char>| #[trigger] entries.contains(("Model"@, v)) <==> cleaned(
                opt_view(fw.board_name),
            ) == Some(v)
            &&& forall|v: Seq<char>| #[trigger] entries.contains(("Revision"@, v)) <==> cleaned(
                opt_view(fw.board_version),
            ) == Some(v)
            &&& forall|v: Seq<char>| #[trigger] entries.contains(("System Product"@, v)) <==> cleaned(
                spaced_pair(opt_view(fw.sys_vendor), opt_view(fw.product_name)),
            ) == Some(v)
        }),
{
    lemma_combined_pair(opt_view(fw.sys_vendor), opt_view(fw.product_name));
    reveal_strlit("Manufacturer");
    reveal_strlit("Model");
    reveal_strlit("Revision");
    reveal_strlit("System Product");
    assert("Manufacturer"@.len() != "Model"@.len());
    assert("Manufacturer"@.len() != "Revision"@.len());
    assert("Manufacturer"@.len() != "System Product"@.len());
    assert("Model"@.len() != "Revision"@.len());
    assert("Model"@.len() != "System Product"@.len());
    assert("Revision"@.len() != "System Product"@.len());
    let e0 = entry_if("Manufacturer"@, opt_view(fw.board_vendor));
    let e1 = entry_if("Model"@, opt_view(fw.board_name));
    let e2 = entry_if("Revision"@, opt_view(fw.board_version));
    let e3 = entry_if("System Product"@, combined_spec(seq![opt_view(fw.sys_vendor), opt_view(fw.product_name)]));
    let s0 = e0;
    let s1 = e0 + e1;
    let s2 = e0 + e1 + e2;
    let s3 = e0 + e1 + e2 + e3;
    assert(board_entries(fw) == s3);
    assert forall|v: Seq<char>| #[trigger] s3.contains(("Manufacturer"@, v)) <==> cleaned(
        opt_view(fw.board_vendor),
    ) == Some(v) by {
        lemma_concat_contains(s0, e1, ("Manufacturer"@, v));
        lemma_concat_contains(s1, e2, ("Manufacturer"@, v));
        lemma_concat_contains(s2, e3, ("Manufacturer"@, v));
        lemma_entry_if_contains("Manufacturer"@, opt_view(fw.board_vendor), "Manufacturer"@, v);
        lemma_entry_if_contains("Model"@, opt_view(fw.board_name), "Manufacturer"@, v);
        lemma_entry_if_contains("Revision"@, opt_view(fw.board_version), "Manufacturer"@, v);
        lemma_entry_if_contains("System Product"@, combined_spec(seq![opt_view(fw.sys_vendor), opt_view(fw.product_name)]), "Manufacturer"@, v);
    }
    assert forall|v: Seq<char>| #[trigger] s3.contains(("Model"@, v)) <==> cleaned(
        opt_view(fw.board_name),
    ) == Some(v) by {
        lemma_concat_contains(s0, e1, ("Model"@, v));
        lemma_concat_contains(s1, e2, ("Model"@, v));
        lemma_concat_contains(s2, e3, ("Model"@, v));
        lemma_entry_if_contains("Manufacturer"@, opt_view(fw.board_vendor), "Model"@, v);
        lemma_entry_if_contains("Model"@, opt_view(fw.board_name), "Model"@, v);
        lemma_entry_if_contains("Revision"@, opt_view(fw.board_version), "Model"@, v);
        lemma_entry_if_contains("System Product"@, combined_spec(seq![opt_view(fw.sys_vendor), opt_view(fw.product_name)]), "Model"@, v);
    }
    assert forall|v: Seq<char>| #[trigger] s3.contains(("Revision"@, v)) <==> cleaned(
        opt_view(fw.board_version),
    ) == Some(v) by {
        lemma_concat_contains(s0, e1, ("Revision"@, v));
        lemma_concat_contains(s1, e2, ("Revision"@, v));
        lemma_concat_contains(s2, e3, ("Revision"@, v));
        lemma_entry_if_contains("Manufacturer"@, opt_view(fw.board_vendor), "Revision"@, v);
        lemma_entry_if_contains("Model"@, opt_view(fw.board_name), "Revision"@, v);
        lemma_entry_if_contains("Revision"@, opt_view(fw.board_version), "Revision"@, v);
        lemma_entry_if_contains("System Product"@, combined_spec(seq![opt_view(fw.sys_vendor), opt_view(fw.product_name)]), "Revision"@, v);
    }
    assert forall|v: Seq<char>| #[trigger] s3.contains(("System Product"@, v)) <==> cleaned(
        spaced_pair(opt_view(fw.sys_vendor), opt_view(fw.product_name)),
    ) == Some(v) by {
        lemma_concat_contains(s0, e1, ("System Product"@, v));
        lemma_concat_contains(s1, e2, ("System Product"@, v));
        lemma_concat_contains(s2, e3, ("System Product"@, v));
        lemma_entry_if_contains("Manufacturer"@, opt_view(fw.board_vendor), "System Product"@, v);
        lemma_entry_if_contains("Model"@, opt_view(fw.board_name), "System Product"@, v);
        lemma_entry_if_contains("Revision"@, opt_view(fw.board_version), "System Product"@, v);
        lemma_entry_if_contains("System Product"@, combined_spec(seq![opt_view(fw.sys_vendor), opt_view(fw.product_name)]), "System Product"@, v);
    }
}

/// The firmware section: the BIOS vendor, version, release date and release, each
/// entry only when its value says something.
pub proof fn lemma_firmware_entries(fw: FirmwareFacts)
    ensures
        ({
            let entries = firmware_entries(fw);
            &&& forall|v: Seq<char>| #[trigger] entries.contains(("Vendor"@, v)) <==> cleaned(
                opt_view(fw.bios_vendor),
            ) == Some(v)
            &&& forall|v: Seq<char>| #[trigger] entries.contains(("Version"@, v)) <==> cleaned(
                opt_view(fw.bios_version),
            ) == Some(v)
            &&& forall|v: Seq<char>| #[trigger] entries.contains(("Release Date"@, v)) <==> cleaned(
                opt_view(fw.bios_date),
            ) == Some(v)
            &&& forall|v: Seq<char>| #[trigger] entries.contains(("BIOS Release"@, v)) <==> cleaned(
                opt_view(fw.bios_release),
            ) == Some(v)
        }),
{
    reveal_strlit("Vendor");
    reveal_strlit("Version");
    reveal_strlit("Release Date");
    reveal_strlit("BIOS Release");
    assert("Vendor"@.len() != "Version"@.len());
    assert("Vendor"@.len() != "Release Date"@.len());
    assert("Vendor"@.len() != "BIOS Release"@.len());
    assert("Version"@.len() != "Release Date"@.len());
    assert("Version"@.len() != "BIOS Release"@.len());
    assert("Release Date"@[0] != "BIOS Release"@[0]);
    let e0 = entry_if("Vendor"@, opt_view(fw.bios_vendor));
    let e1 = entry_if("Version"@, opt_view(fw.bios_version));
    let e2 = entry_if("Release Date"@, opt_view(fw.bios_date));
    let e3 = entry_if("BIOS Release"@, opt_view(fw.bios_release));
    let s0 = e0;
    let s1 = e0 + e1;
    let s2 = e0 + e1 + e2;
    let s3 = e0 + e1 + e2 + e3;
    assert(firmware_entries(fw) == s3);
    assert forall|v: Seq<char>| #[trigger] s3.contains(("Vendor"@, v)) <==> cleaned(
        opt_view(fw.bios_vendor),
    ) == Some(v) by {
        lemma_concat_contains(s0, e1, ("Vendor"@, v));
        lemma_concat_contains(s1, e2, ("Vendor"@, v));
        lemma_concat_contains(s2, e3, ("Vendor"@, v));
        lemma_entry_if_contains("Vendor"@, opt_view(fw.bios_vendor), "Vendor"@, v);
        lemma_entry_if_contains("Version"@, opt_view(fw.bios_version), "Vendor"@, v);
        lemma_entry_if_contains("Release Date"@, opt_view(fw.bios_date), "Vendor"@, v);
        lemma_entry_if_contains("BIOS Release"@, opt_view(fw.bios_release), "Vendor"@, v);
    }
    assert forall|v: Seq<char>| #[trigger] s3.contains(("Version"@, v)) <==> cleaned(
        opt_view(fw.bios_version),
    ) == Some(v) by {
        lemma_concat_contains(s0, e1, ("Version"@, v));
        lemma_concat_contains(s1, e2, ("Version"@, v));
        lemma_concat_contains(s2, e3, ("Version"@, v));
        lemma_entry_if_contains("Vendor"@, opt_view(fw.bios_vendor), "Version"@, v);
        lemma_entry_if_contains("Version"@, opt_view(fw.bios_version), "Version"@, v);
        lemma_entry_if_contains("Release Date"@, opt_view(fw.bios_date), "Version"@, v);
        lemma_entry_if_contains("BIOS Release"@, opt_view(fw.bios_release), "Version"@, v);
    }
    assert forall|v: Seq<char>| #[trigger] s3.contains(("Release Date"@, v)) <==> cleaned(
        opt_view(fw.bios_date),
    ) == Some(v) by {
        lemma_concat_contains(s0, e1, ("Release Date"@, v));
        lemma_concat_contains(s1, e2, ("Release Date"@, v));
        lemma_concat_contains(s2, e3, ("Release Date"@, v));
        lemma_entry_if_contains("Vendor"@, opt_view(fw.bios_vendor), "Release Date"@, v);
        lemma_entry_if_contains("Version"@, opt_view(fw.bios_version), "Release Date"@, v);
        lemma_entry_if_contains("Release Date"@, opt_view(fw.bios_date), "Release Date"@, v);
        lemma_entry_if_contains("BIOS Release"@, opt_view(fw.bios_release), "Release Date"@, v);
    }
    assert forall|v: Seq<char>| #[trigger] s3.contains(("BIOS Release"@, v)) <==> cleaned(
        opt_view(fw.bios_release),
    ) == Some(v) by {
        lemma_concat_contains(s0, e1, ("BIOS Release"@, v));
        lemma_concat_contains(s1, e2, ("BIOS Release"@, v));
        lemma_concat_contains(s2, e3, ("BIOS Release"@, v));
        lemma_entry_if_contains("Vendor"@, opt_view(fw.bios_vendor), "BIOS Release"@, v);
        lemma_entry_if_contains("Version"@, opt_view(fw.bios_version), "BIOS Release"@, v);
        lemma_entry_if_contains("Release Date"@, opt_view(fw.bios_date), "BIOS Release"@, v);
        lemma_entry_if_contains("BIOS Release"@, opt_view(fw.bios_release), "BIOS Release"@, v);
    }
}

/// The topology line: the number of logical processors, and of sockets when known.
pub open spec fn topology_text(cpu: CpuFacts) -> Seq<char> {
    let base = decimal(cpu.logical_processors as nat) + " logical processors"@;
    match cpu.socket_count {
        Some(n) => if n > 0 {
            base + ", "@ + decimal(n as nat) + " socket"@ + if n == 1 {
                Seq::<char>::empty()
            } else {
                "s"@
            }
        } else {
            base
        },
        None => base,
    }
}

/// The base frequency shown: none when the driver only estimates it from BogoMIPS or
/// when it is below 100 MHz.
pub open spec fn base_frequency_text(cpu: CpuFacts) -> Option<Seq<char>> {
    if opt_view(cpu.frequency_driver) == Some("bogomips"@) {
        None
    } else {
        match cpu.base_frequency {
            Some(f) => if f.value >= 100_000 {
                Some(f.text@)
            } else {
                None
            },
            None => None,
        }
    }
}

/// The cache levels that are known, each as its level name and size.
pub open spec fn cache_parts(cpu: CpuFacts) -> Seq<Seq<char>> {
    let l1 = match positive_text(cpu.l1_combined_cache) {
        Some(t) => seq!["L1 "@ + t],
        None => Seq::empty(),
    };
    let l2 = match positive_text(cpu.l2_cache) {
        Some(t) => seq!["L2 "@ + t],
        None => Seq::empty(),
    };
    let l3 = match positive_text(cpu.l3_cache) {
        Some(t) => seq!["L3 "@ + t],
        None => Seq::empty(),
    };
    l1 + l2 + l3
}

/// The entries of the processor section.
pub open spec fn processor_entries(cpu: CpuFacts) -> Seq<(Seq<char>, Seq<char>)> {
    let caches = cache_parts(cpu);
    entry_if("Model"@, opt_view(cpu.name)) + (if cpu.logical_processors > 0 {
        entry_if("Topology"@, Some(topology_text(cpu)))
    } else {
        Seq::empty()
    }) + entry_if("Base Frequency"@, base_frequency_text(cpu)) + entry_if(
        "Virtualization"@,
        opt_view(cpu.virtualization_technology),
    ) + entry_if(
        "Cache"@,
        if caches.len() > 0 {
            Some(join_with(caches, " / "@))
        } else {
            None
        },
    )
}

fn push_section(result: &mut Vec<InfoSection>, title: &str, entries: Vec<InfoEntry>)
    ensures
        sections_view(final(result)@) == sections_view(old(result)@) + seq![
            (title@, entries_view(entries@)),
        ],
{
    let ghost before = result@;
    result.push(section(title, entries));
    assert(result@ =~= before.push(result@.last()));
    assert(sections_view(result@) =~= sections_view(before) + seq![
        (title@, entries_view(entries@)),
    ]);
}

fn board_section_entries(fw: &FirmwareFacts) -> (entries: Vec<InfoEntry>)
    ensures
        entries_view(entries@) == board_entries(*fw),
{
    let mut board: Vec<InfoEntry> = Vec::new();
    push(&mut board, "Manufacturer", copied(&fw.board_vendor));
    push(&mut board, "Model", copied(&fw.board_name));
    push(&mut board, "Revision", copied(&fw.board_version));
    let parts = vec![copied(&fw.sys_vendor), copied(&fw.product_name)];
    assert(opt_views(parts@) =~= seq![opt_view(fw.sys_vendor), opt_view(fw.product_name)]);
    push(&mut board, "System Product", combined(parts));
    assert(entries_view(board@) =~= board_entries(*fw));
    board
}

fn firmware_section_entries(fw: &FirmwareFacts) -> (entries: Vec<InfoEntry>)
    ensures
        entries_view(entries@) == firmware_entries(*fw),
{
    let mut firmware: Vec<InfoEntry> = Vec::new();
    push(&mut firmware, "Vendor", copied(&fw.bios_vendor));
    push(&mut firmware, "Version", copied(&fw.bios_version));
    push(&mut firmware, "Release Date", copied(&fw.bios_date));
    push(&mut firmware, "BIOS Release", copied(&fw.bios_release));
    assert(entries_view(firmware@) =~= firmware_entries(*fw));
    firmware
}

fn topology(cpu: &CpuFacts) -> (text: String)
    ensures
        text@ == topology_text(*cpu),
{
    let mut text = String::new();
    push_decimal(&mut text, cpu.logical_processors);
    text.append(" logical processors");
    if let Some(sockets) = cpu.socket_count {
        if sockets > 0 {
            text.append(", ");
            push_decimal(&mut text, sockets);
            text.append(" socket");
            if sockets != 1 {
                text.append("s");
            } else {
                assert(text@ =~= text@ + Seq::<char>::empty());
            }
        }
    }
    assert(text@ =~= topology_text(*cpu));
    text
}

fn is_bogomips(driver: &Option<String>) -> (b: bool)
    ensures
        b == (opt_view(*driver) == Some("bogomips"@)),
{
    match driver {
        Some(d) => crate::sidebar::str_eq(d.as_str(), "bogomips"),
        None => false,
    }
}

fn cache_part(level: &str, size: &Option<Measured>, parts: &mut Vec<String>)
    ensures
        views(final(parts)@) == views(old(parts)@) + match positive_text(*size) {
            Some(t) => seq![level@ + t],
            None => Seq::<Seq<char>>::empty(),
        },
{
    let ghost before = parts@;
    if let Some(m) = size {
        if m.value > 0 {
            let mut part = String::from_str(level);
            part.append(m.text.as_str());
            parts.push(part);
            assert(views(parts@) =~= views(before) + seq![level@ + m.text@]);
            return;
        }
    }
    assert(views(parts@) =~= views(before));
}

fn processor_section_entries(cpu: &CpuFacts) -> (entries: Vec<InfoEntry>)
    ensures
        entries_view(entries@) == processor_entries(*cpu),
{
    let mut processor: Vec<InfoEntry> = Vec::new();
    push(&mut processor, "Model", copied(&cpu.name));
    let ghost after_model = entries_view(processor@);
    if cpu.logical_processors > 0 {
        push(&mut processor, "Topology", Some(topology(cpu)));
    } else {
        assert(entries_view(processor@) =~= after_model + Seq::<(Seq<char>, Seq<char>)>::empty());
    }
    let frequency = if !is_bogomips(&cpu.frequency_driver) {
        match &cpu.base_frequency {
            Some(f) => if f.value >= 100_000 {
                Some(f.text.clone())
            } else {
                None
            },
            None => None,
        }
    } else {
        None
    };
    push(&mut processor, "Base Frequency", frequency);
    push(&mut processor, "Virtualization", copied(&cpu.virtualization_technology));
    let mut caches: Vec<String> = Vec::new();
    cache_part("L1 ", &cpu.l1_combined_cache, &mut caches);
    cache_part("L2 ", &cpu.l2_cache, &mut caches);
    cache_part("L3 ", &cpu.l3_cache, &mut caches);
    assert(views(caches@) =~= cache_parts(*cpu));
    let cache_line = if caches.len() > 0 {
        Some(join_strings(&caches, " / "))
    } else {
        None
    };
    push(&mut processor, "Cache", cache_line);
    assert(entries_view(processor@) =~= processor_entries(*cpu));
    processor
}

/// `i` placed into the index list `order` after every index whose id is not greater
/// than `ids[i]`.
pub open spec fn insert_index_by_id(order: Seq<int>, ids: Seq<Seq<char>>, i: int) -> Seq<int>
    decreases order.len(),
{
    if order.len() == 0 {
        seq![i]
    } else if lex_lt(ids[i], ids[order[0]]) {
        seq![i] + order
    } else {
        seq![order[0]] + insert_index_by_id(order.drop_first(), ids, i)
    }
}

/// The indices `0..n` ordered by their ids, equal ids keeping their relative order:
/// what a stable sort by id gives.
pub open spec fn id_order(ids: Seq<Seq<char>>, n: nat) -> Seq<int>
    decreases n,
{
    if n == 0 {
        Seq::empty()
    } else {
        insert_index_by_id(id_order(ids, (n - 1) as nat), ids, n - 1)
    }
}

proof fn lemma_insert_index_at(order: Seq<int>, ids: Seq<Seq<char>>, i: int, p: int)
    requires
        0 <= p <= order.len(),
        forall|j: int| 0 <= j < p ==> !lex_lt(ids[i], ids[#[trigger] order[j]]),
        p < order.len() ==> lex_lt(ids[i], ids[order[p]]),
    ensures
        insert_index_by_id(order, ids, i) == order.insert(p, i),
    decreases p,
{
    if p == 0 {
        if order.len() == 0 {
            assert(order.insert(0, i) =~= seq![i]);
        } else {
            assert(order.insert(0, i) =~= seq![i] + order);
        }
    } else {
        lemma_insert_index_at(order.drop_first(), ids, i, p - 1);
        assert(order.insert(p, i) =~= seq![order[0]] + order.drop_first().insert(p - 1, i));
    }
}

proof fn lemma_insert_index_range(order: Seq<int>, ids: Seq<Seq<char>>, i: int, n: int)
    requires
        forall|j: int| 0 <= j < order.len() ==> 0 <= #[trigger] order[j] < n,
        0 <= i < n,
    ensures
        forall|j: int| 0 <= j < insert_index_by_id(order, ids, i).len() ==> 0 <= #[trigger] insert_index_by_id(order, ids, i)[j] < n,
        insert_index_by_id(order, ids, i).len() == order.len() + 1,
    decreases order.len(),
{
    if order.len() > 0 && !lex_lt(ids[i], ids[order[0]]) {
        lemma_insert_index_range(order.drop_first(), ids, i, n);
        let r = insert_index_by_id(order, ids, i);
        let t = insert_index_by_id(order.drop_first(), ids, i);
        assert forall|j: int| 0 <= j < r.len() implies 0 <= #[trigger] r[j] < n by {
            if j > 0 {
                assert(r[j] == t[j - 1]);
            }
        }
    }
}

proof fn lemma_id_order_range(ids: Seq<Seq<char>>, n: nat)
    ensures
        id_order(ids, n).len() == n,
        forall|j: int| 0 <= j < n ==> 0 <= #[trigger] id_order(ids, n)[j] < n,
    decreases n,
{
    if n > 0 {
        lemma_id_order_range(ids, (n - 1) as nat);
        lemma_insert_index_range(id_order(ids, (n - 1) as nat), ids, n - 1, n as int);
    }
}

/// The indices of `ids` in a stable order by id; see `id_order`. The GPUs of a
/// reading, too, are numbered and given pages in this order.
pub fn sorted_indices(ids: &Vec<String>) -> (order: Vec<usize>)
    ensures
        order@.len() == ids@.len(),
        forall|j: int| 0 <= j < order@.len() ==> order@[j] as int == id_order(views(ids@), ids@.len())[j],
        forall|j: int| 0 <= j < order@.len() ==> #[trigger] order@[j] < ids@.len(),
{
    let mut order: Vec<usize> = Vec::new();
    let mut i: usize = 0;
    while i < ids.len()
        invariant
            i <= ids@.len(),
            order@.len() == i,
            forall|j: int| 0 <= j < i ==> order@[j] as int == id_order(views(ids@), i as nat)[j],
            forall|j: int| 0 <= j < i ==> #[trigger] order@[j] < i,
        decreases ids.len() - i,
    {
        let x = crate::text::chars_of(ids[i].as_str());
        let mut p: usize = 0;
        while p < order.len() && !crate::text::lex_less(
            &x,
            &crate::text::chars_of(ids[order[p]].as_str()),
        )
            invariant
                p <= order@.len(),
                x@ == views(ids@)[i as int],
                forall|j: int| 0 <= j < order@.len() ==> #[trigger] order@[j] < i,
                i < ids@.len(),
                forall|j: int| 0 <= j < p ==> !lex_lt(x@, views(ids@)[#[trigger] order@[j] as int]),
            decreases order.len() - p,
        {
            p += 1;
        }
        let ghost prev = id_order(views(ids@), i as nat);
        proof {
            lemma_id_order_range(views(ids@), i as nat);
            assert(prev =~= order@.map_values(|k: usize| k as int));
            lemma_insert_index_at(prev, views(ids@), i as int, p as int);
        }
        let ghost before = order@;
        order.insert(p, i);
        proof {
            let next = id_order(views(ids@), (i + 1) as nat);
            assert(next == prev.insert(p as int, i as int));
            assert forall|j: int| 0 <= j < i + 1 implies order@[j] as int == next[j] by {
                if j < p {
                    assert(order@[j] == before[j]);
                } else if j > p {
                    assert(order@[j] == before[j - 1]);
                }
            }
        }
        i += 1;
    }
    order
}

/// The details of a memory module: size, type, speed and form factor, as far as known.
pub open spec fn module_detail_parts(m: MemoryModule) -> Seq<Seq<char>> {
    (if m.size.value > 0 {
        seq![m.size.text@]
    } else {
        Seq::empty()
    }) + (match cleaned(Some(m.ram_type@)) {
        Some(t) => seq![t],
        None => Seq::empty(),
    }) + (if m.speed > 0 {
        seq![decimal(m.speed as nat) + " MT/s"@]
    } else {
        Seq::empty()
    }) + (match cleaned(Some(m.form_factor@)) {
        Some(t) => seq![t],
        None => Seq::empty(),
    })
}

/// How a memory module reads: its slot, then its details.
pub open spec fn module_value(m: MemoryModule) -> Seq<char> {
    let details = join_with(module_detail_parts(m), " · "@);
    if m.locator@.len() == 0 {
        details
    } else {
        m.locator@ + " — "@ + details
    }
}

/// One entry per memory module, numbered from 1.
pub open spec fn module_entries(modules: Seq<MemoryModule>) -> Seq<(Seq<char>, Seq<char>)>
    decreases modules.len(),
{
    if modules.len() == 0 {
        Seq::empty()
    } else {
        module_entries(modules.drop_last()) + entry_if(
            "Module "@ + decimal(modules.len()),
            Some(module_value(modules.last())),
        )
    }
}

/// The entries of the memory section.
pub open spec fn memory_entries(mem: MemoryFacts) -> Seq<(Seq<char>, Seq<char>)> {
    let populated = mem.devices@.len();
    let slots = if mem.max_devices > populated {
        mem.max_devices as nat
    } else {
        populated
    };
    (if mem.mem_total.value > 0 {
        entry_if("Installed"@, Some(mem.mem_total.text@))
    } else {
        Seq::empty()
    }) + (if slots > 0 {
        entry_if(
            "Slots"@,
            Some(decimal(populated) + " populated / "@ + decimal(slots) + " total"@),
        )
    } else {
        Seq::empty()
    }) + module_entries(mem.devices@)
}

fn clean_str(s: &String) -> (kept: Option<String>)
    ensures
        opt_view(kept) == cleaned(Some(s@)),
{
    clean(Some(s.clone()))
}

fn module_text(m: &MemoryModule) -> (text: String)
    ensures
        text@ == module_value(*m),
{
    let mut parts: Vec<String> = Vec::new();
    if m.size.value > 0 {
        parts.push(m.size.text.clone());
    }
    let ghost p1 = views(parts@);
    if let Some(t) = clean_str(&m.ram_type) {
        parts.push(t);
    }
    let ghost p2 = views(parts@);
    if m.speed > 0 {
        let mut speed = String::new();
        push_decimal(&mut speed, m.speed);
        speed.append(" MT/s");
        parts.push(speed);
    }
    let ghost p3 = views(parts@);
    if let Some(t) = clean_str(&m.form_factor) {
        parts.push(t);
    }
    assert(views(parts@) =~= module_detail_parts(*m));
    let details = join_strings(&parts, " · ");
    if m.locator.as_str().unicode_len() == 0 {
        details
    } else {
        let mut text = m.locator.clone();
        text.append(" — ");
        text.append(details.as_str());
        text
    }
}

fn numbered(prefix: &str, n: u64) -> (name: String)
    ensures
        name@ == prefix@ + decimal(n as nat),
{
    let mut name = String::from_str(prefix);
    push_decimal(&mut name, n);
    name
}

fn memory_section_entries(mem: &MemoryFacts) -> (entries: Vec<InfoEntry>)
    requires
        mem.devices@.len() < u64::MAX,
    ensures
        entries_view(entries@) == memory_entries(*mem),
{
    let mut memory: Vec<InfoEntry> = Vec::new();
    if mem.mem_total.value > 0 {
        push(&mut memory, "Installed", Some(mem.mem_total.text.clone()));
    }
    let ghost after_installed = entries_view(memory@);
    let populated = mem.devices.len() as u64;
    let slots = if mem.max_devices > populated {
        mem.max_devices
    } else {
        populated
    };
    if slots > 0 {
        let mut text = String::new();
        push_decimal(&mut text, populated);
        text.append(" populated / ");
        push_decimal(&mut text, slots);
        text.append(" total");
        push(&mut memory, "Slots", Some(text));
    }
    let ghost after_slots = entries_view(memory@);
    let mut i: usize = 0;
    while i < mem.devices.len()
        invariant
            i <= mem.devices@.len(),
            mem.devices@.len() < u64::MAX,
            entries_view(memory@) == after_slots + module_entries(mem.devices@.take(i as int)),
        decreases mem.devices.len() - i,
    {
        let ghost t = mem.devices@.take(i + 1);
        assert(t.drop_last() =~= mem.devices@.take(i as int));
        let name = numbered("Module ", (i + 1) as u64);
        push(&mut memory, name.as_str(), Some(module_text(&mem.devices[i])));
        i += 1;
    }
    assert(mem.devices@.take(mem.devices@.len() as int) =~= mem.devices@);
    assert(entries_view(memory@) =~= memory_entries(*mem));
    memory
}

/// The vendor a PCI vendor id stands for.
pub open spec fn vendor_name(vendor_id: u32) -> Seq<char> {
    if vendor_id == 0x1002 {
        "AMD"@
    } else if vendor_id == 0x10de {
        "NVIDIA"@
    } else if vendor_id == 0x8086 {
        "Intel"@
    } else {
        "GPU"@
    }
}

/// How a GPU reads: its name (or vendor and device id), memory, and PCIe link.
pub open spec fn gpu_details(g: GpuFacts) -> Seq<char> {
    let base = match opt_view(g.device_name) {
        Some(n) => n,
        None => vendor_name(g.vendor_id) + " "@ + zero_padded(hex(g.device_id as nat), 4),
    };
    let with_memory = match positive_text(g.total_memory) {
        Some(t) => base + " · "@ + t + " VRAM"@,
        None => base,
    };
    match (g.max_pcie_gen, g.max_pcie_lanes) {
        (Some(generation), Some(lanes)) => with_memory + " · PCIe "@ + decimal(generation as nat)
            + ".0 x"@ + decimal(lanes as nat),
        _ => with_memory,
    }
}

pub open spec fn gpu_ids(gpus: Seq<GpuFacts>) -> Seq<Seq<char>> {
    gpus.map_values(|g: GpuFacts| g.id@)
}

/// One entry per GPU in `order`, numbered from 1.
pub open spec fn gpu_entries(gpus: Seq<GpuFacts>, order: Seq<int>) -> Seq<(Seq<char>, Seq<char>)>
    decreases order.len(),
{
    if order.len() == 0 {
        Seq::empty()
    } else {
        gpu_entries(gpus, order.drop_last()) + entry_if(
            "GPU "@ + decimal(order.len()),
            Some(gpu_details(gpus[order.last()])),
        )
    }
}

/// The entries of the graphics section: the GPUs in the order of their ids.
pub open spec fn graphics_entries(gpus: Seq<GpuFacts>) -> Seq<(Seq<char>, Seq<char>)> {
    gpu_entries(gpus, id_order(gpu_ids(gpus), gpus.len()))
}

/// How a GPU reads in the graphics section. A GPU with a name starts with it. One
/// without starts with its vendor's name, "AMD" for PCI vendor 0x1002, "NVIDIA" for
/// 0x10de, "Intel" for 0x8086 and "GPU" for any other, then its device id in at least
/// four lower-case hex digits. The video memory follows when it is known and the
/// PCIe link when both its generation and width are.
pub proof fn lemma_gpu_details(g: GpuFacts)
    ensures
        ({
            let details = gpu_details(g);
            let id = " "@ + zero_padded(hex(g.device_id as nat), 4);
            &&& g.device_name is Some ==> g.device_name->0@.is_prefix_of(details)
            &&& g.device_name is None && g.vendor_id == 0x1002 ==> ("AMD"@ + id).is_prefix_of(details)
            &&& g.device_name is None && g.vendor_id == 0x10de ==> ("NVIDIA"@ + id).is_prefix_of(details)
            &&& g.device_name is None && g.vendor_id == 0x8086 ==> ("Intel"@ + id).is_prefix_of(details)
            &&& g.device_name is None && g.vendor_id != 0x1002 && g.vendor_id != 0x10de && g.vendor_id
                != 0x8086 ==> ("GPU"@ + id).is_prefix_of(details)
            &&& (g.total_memory is None || g.total_memory->0.value == 0) && (g.max_pcie_gen is None
                || g.max_pcie_lanes is None) && g.device_name is None ==> details == vendor_name(g.vendor_id) + id
            &&& g.total_memory is Some && g.total_memory->0.value > 0 ==> exists|i: int|
                0 <= i && i + g.total_memory->0.text@.len() + 8 <= details.len() && #[trigger] details.subrange(
                    i,
                    i + g.total_memory->0.text@.len() + 8,
                ) == " · "@ + g.total_memory->0.text@ + " VRAM"@
        }),
{
    let id = " "@ + zero_padded(hex(g.device_id as nat), 4);
    let base = match opt_view(g.device_name) {
        Some(n) => n,
        None => vendor_name(g.vendor_id) + " "@ + zero_padded(hex(g.device_id as nat), 4),
    };
    let with_memory = match positive_text(g.total_memory) {
        Some(t) => base + " · "@ + t + " VRAM"@,
        None => base,
    };
    let details = gpu_details(g);
    assert(base.is_prefix_of(with_memory)) by {
        if let Some(t) = positive_text(g.total_memory) {
            assert(with_memory =~= base + (" · "@ + t + " VRAM"@));
        }
    }
    assert(with_memory.is_prefix_of(details)) by {
        if let (Some(generation), Some(lanes)) = (g.max_pcie_gen, g.max_pcie_lanes) {
            assert(details =~= with_memory + (" · PCIe "@ + decimal(generation as nat) + ".0 x"@
                + decimal(lanes as nat)));
        }
    }
    assert(base.is_prefix_of(details));
    if g.device_name is None {
        assert(base =~= vendor_name(g.vendor_id) + id);
    }
    if let Some(m) = g.total_memory {
        if m.value > 0 {
            reveal_strlit(" · ");
            reveal_strlit(" VRAM");
            let t = m.text@;
            let i = base.len() as int;
            let piece = " · "@ + t + " VRAM"@;
            assert(piece.len() == t.len() + 8);
            assert(with_memory =~= base + piece);
            assert(details.subrange(i, i + piece.len()) =~= piece);
            assert(details.subrange(i, i + t.len() + 8) == " · "@ + t + " VRAM"@);
        }
    }
}

fn vendor_str(vendor_id: u32) -> (name: &'static str)
    ensures
        name@ == vendor_name(vendor_id),
{
    if vendor_id == 0x1002 {
        "AMD"
    } else if vendor_id == 0x10de {
        "NVIDIA"
    } else if vendor_id == 0x8086 {
        "Intel"
    } else {
        "GPU"
    }
}

fn gpu_text(g: &GpuFacts) -> (text: String)
    ensures
        text@ == gpu_details(*g),
{
    let mut text = match &g.device_name {
        Some(n) => n.clone(),
        None => {
            let mut t = String::from_str(vendor_str(g.vendor_id));
            t.append(" ");
            let id = crate::text::hex4_string(g.device_id as u64);
            t.append(id.as_str());
            t
        },
    };
    if let Some(m) = &g.total_memory {
        if m.value > 0 {
            text.append(" · ");
            text.append(m.text.as_str());
            text.append(" VRAM");
        }
    }
    if let (Some(generation), Some(lanes)) = (g.max_pcie_gen, g.max_pcie_lanes) {
        text.append(" · PCIe ");
        push_decimal(&mut text, generation as u64);
        text.append(".0 x");
        push_decimal(&mut text, lanes as u64);
    }
    text
}

fn ids_of_gpus(gpus: &Vec<GpuFacts>) -> (ids: Vec<String>)
    ensures
        views(ids@) == gpu_ids(gpus@),
{
    let mut ids: Vec<String> = Vec::new();
    let mut i: usize = 0;
    while i < gpus.len()
        invariant
            i <= gpus@.len(),
            views(ids@) == gpu_ids(gpus@).take(i as int),
        decreases gpus.len() - i,
    {
        let ghost before = ids@;
        let id = gpus[i].id.clone();
        ids.push(id);
        assert(ids@ =~= before.push(id));
        assert(views(ids@) =~= views(before).push(gpus@[i as int].id@));
        i += 1;
        assert(views(ids@) =~= gpu_ids(gpus@).take(i as int));
    }
    assert(gpu_ids(gpus@).take(gpus@.len() as int) =~= gpu_ids(gpus@));
    ids
}

fn graphics_section_entries(gpus: &Vec<GpuFacts>) -> (entries: Vec<InfoEntry>)
    requires
        gpus@.len() < u64::MAX,
    ensures
        entries_view(entries@) == graphics_entries(gpus@),
{
    let ids = ids_of_gpus(gpus);
    let order = sorted_indices(&ids);
    let ghost full = id_order(gpu_ids(gpus@), gpus@.len());
    proof {
        assert(views(ids@).len() == ids@.len());
        assert(ids@.len() == gpus@.len());
        lemma_id_order_range(gpu_ids(gpus@), gpus@.len());
    }
    let mut graphics: Vec<InfoEntry> = Vec::new();
    let mut k: usize = 0;
    while k < order.len()
        invariant
            k <= order@.len(),
            order@.len() == gpus@.len(),
            gpus@.len() < u64::MAX,
            full.len() == gpus@.len(),
            forall|j: int| 0 <= j < order@.len() ==> order@[j] as int == full[j],
            forall|j: int| 0 <= j < order@.len() ==> #[trigger] order@[j] < gpus@.len(),
            entries_view(graphics@) == gpu_entries(gpus@, full.take(k as int)),
        decreases order.len() - k,
    {
        let ghost t = full.take(k + 1);
        assert(t.drop_last() =~= full.take(k as int));
        assert(t.last() == order@[k as int] as int);
        let name = numbered("GPU ", (k + 1) as u64);
        push(&mut graphics, name.as_str(), Some(gpu_text(&gpus[order[k]])));
        k += 1;
    }
    assert(full.take(full.len() as int) =~= full);
    graphics
}

/// What is listed of a drive: model, capacity, kind, and whether it holds the system.
pub open spec fn disk_parts(d: DiskFacts) -> Seq<Seq<char>> {
    (match cleaned(opt_view(d.model)) {
        Some(m) => seq![m],
        None => Seq::empty(),
    }) + seq![d.capacity.text@] + (match d.kind {
        Some(k) => seq![disk_kind_label(k)],
        None => Seq::empty(),
    }) + (if d.is_system {
        seq!["System disk"@]
    } else {
        Seq::empty()
    })
}

pub open spec fn disk_ids(disks: Seq<DiskFacts>) -> Seq<Seq<char>> {
    disks.map_values(|d: DiskFacts| d.id@)
}

/// One entry per drive in `order`, numbered from 1 and named with the drive's id.
pub open spec fn disk_entries(disks: Seq<DiskFacts>, order: Seq<int>) -> Seq<(Seq<char>, Seq<char>)>
    decreases order.len(),
{
    if order.len() == 0 {
        Seq::empty()
    } else {
        let d = disks[order.last()];
        disk_entries(disks, order.drop_last()) + entry_if(
            "Drive "@ + decimal(order.len()) + " ("@ + d.id@ + ")"@,
            Some(join_with(disk_parts(d), " · "@)),
        )
    }
}

/// The entries of the storage section: the drives in the order of their ids.
pub open spec fn storage_entries(disks: Seq<DiskFacts>) -> Seq<(Seq<char>, Seq<char>)> {
    disk_entries(disks, id_order(disk_ids(disks), disks.len()))
}

fn disk_text(d: &DiskFacts) -> (text: String)
    ensures
        text@ == join_with(disk_parts(*d), " · "@),
{
    let mut parts: Vec<String> = Vec::new();
    if let Some(model) = clean(copied(&d.model)) {
        parts.push(model);
    }
    let ghost p1 = views(parts@);
    parts.push(d.capacity.text.clone());
    let ghost p2 = views(parts@);
    if let Some(kind) = disk_kind(d.kind) {
        parts.push(String::from_str(kind));
    }
    let ghost p3 = views(parts@);
    if d.is_system {
        parts.push(String::from_str("System disk"));
    }
    assert(views(parts@) =~= disk_parts(*d));
    join_strings(&parts, " · ")
}

fn ids_of_disks(disks: &Vec<DiskFacts>) -> (ids: Vec<String>)
    ensures
        views(ids@) == disk_ids(disks@),
{
    let mut ids: Vec<String> = Vec::new();
    let mut i: usize = 0;
    while i < disks.len()
        invariant
            i <= disks@.len(),
            views(ids@) == disk_ids(disks@).take(i as int),
        decreases disks.len() - i,
    {
        let ghost before = ids@;
        let id = disks[i].id.clone();
        ids.push(id);
        assert(ids@ =~= before.push(id));
        assert(views(ids@) =~= views(before).push(disks@[i as int].id@));
        i += 1;
        assert(views(ids@) =~= disk_ids(disks@).take(i as int));
    }
    assert(disk_ids(disks@).take(disks@.len() as int) =~= disk_ids(disks@));
    ids
}

fn storage_section_entries(disks: &Vec<DiskFacts>) -> (entries: Vec<InfoEntry>)
    requires
        disks@.len() < u64::MAX,
    ensures
        entries_view(entries@) == storage_entries(disks@),
{
    let ids = ids_of_disks(disks);
    let order = sorted_indices(&ids);
    let ghost full = id_order(disk_ids(disks@), disks@.len());
    proof {
        assert(views(ids@).len() == ids@.len());
        assert(ids@.len() == disks@.len());
        lemma_id_order_range(disk_ids(disks@), disks@.len());
    }
    let mut storage: Vec<InfoEntry> = Vec::new();
    let mut k: usize = 0;
    while k < order.len()
        invariant
            k <= order@.len(),
            order@.len() == disks@.len(),
            disks@.len() < u64::MAX,
            full.len() == disks@.len(),
            forall|j: int| 0 <= j < order@.len() ==> order@[j] as int == full[j],
            forall|j: int| 0 <= j < order@.len() ==> #[trigger] order@[j] < disks@.len(),
            entries_view(storage@) == disk_entries(disks@, full.take(k as int)),
        decreases order.len() - k,
    {
        let ghost t = full.take(k + 1);
        assert(t.drop_last() =~= full.take(k as int));
        assert(t.last() == order@[k as int] as int);
        let d = &disks[order[k]];
        let mut name = numbered("Drive ", (k + 1) as u64);
        name.append(" (");
        name.append(d.id.as_str());
        name.append(")");
        push(&mut storage, name.as_str(), Some(disk_text(d)));
        k += 1;
    }
    assert(full.take(full.len() as int) =~= full);
    storage
}

/// The sections on the hardware of the system, leaving out those with no entry.
pub open spec fn hardware_sections_spec(info: HardwareFacts) -> Seq<
    (Seq<char>, Seq<(Seq<char>, Seq<char>)>),
> {
    seq![
        ("Motherboard"@, board_entries(info.firmware)),
        ("BIOS / UEFI"@, firmware_entries(info.firmware)),
        ("Processor"@, processor_entries(info.cpu)),
        ("Memory"@, memory_entries(info.memory)),
        ("Graphics"@, graphics_entries(info.gpus@)),
        ("Storage"@, storage_entries(info.disks@)),
    ].filter(|s: (Seq<char>, Seq<(Seq<char>, Seq<char>)>)| s.1.len() > 0)
}

/// The sections on the hardware of the system; see `hardware_sections_spec`.
pub fn hardware_sections(info: &HardwareFacts) -> (sections: Vec<InfoSection>)
    requires
        info.memory.devices@.len() < u64::MAX,
        info.gpus@.len() < u64::MAX,
        info.disks@.len() < u64::MAX,
    ensures
        sections_view(sections@) == hardware_sections_spec(*info),
{
    let ghost non_empty = |s: (Seq<char>, Seq<(Seq<char>, Seq<char>)>)| s.1.len() > 0;
    let ghost all = seq![
        ("Motherboard"@, board_entries(info.firmware)),
        ("BIOS / UEFI"@, firmware_entries(info.firmware)),
        ("Processor"@, processor_entries(info.cpu)),
        ("Memory"@, memory_entries(info.memory)),
        ("Graphics"@, graphics_entries(info.gpus@)),
        ("Storage"@, storage_entries(info.disks@)),
    ];
    let mut result: Vec<InfoSection> = Vec::new();
    proof {
        reveal(Seq::filter);
        assert(all.take(0).filter(non_empty) =~= Seq::<(Seq<char>, Seq<(Seq<char>, Seq<char>)>)>::empty());
        assert(sections_view(result@) =~= Seq::<(Seq<char>, Seq<(Seq<char>, Seq<char>)>)>::empty());
    }
    push_section_if_any(&mut result, "Motherboard", board_section_entries(&info.firmware), Ghost(all), Ghost(0), Ghost(non_empty));
    push_section_if_any(&mut result, "BIOS / UEFI", firmware_section_entries(&info.firmware), Ghost(all), Ghost(1), Ghost(non_empty));
    push_section_if_any(&mut result, "Processor", processor_section_entries(&info.cpu), Ghost(all), Ghost(2), Ghost(non_empty));
    push_section_if_any(&mut result, "Memory", memory_section_entries(&info.memory), Ghost(all), Ghost(3), Ghost(non_empty));
    push_section_if_any(&mut result, "Graphics", graphics_section_entries(&info.gpus), Ghost(all), Ghost(4), Ghost(non_empty));
    push_section_if_any(&mut result, "Storage", storage_section_entries(&info.disks), Ghost(all), Ghost(5), Ghost(non_empty));
    assert(all.take(6) =~= all);
    result
}

fn push_section_if_any(
    result: &mut Vec<InfoSection>,
    title: &str,
    entries: Vec<InfoEntry>,
    Ghost(all): Ghost<Seq<(Seq<char>, Seq<(Seq<char>, Seq<char>)>)>>,
    Ghost(i): Ghost<int>,
    Ghost(non_empty): Ghost<spec_fn((Seq<char>, Seq<(Seq<char>, Seq<char>)>)) -> bool>,
)
    requires
        0 <= i < all.len(),
        all[i] == (title@, entries_view(entries@)),
        non_empty == (|s: (Seq<char>, Seq<(Seq<char>, Seq<char>)>)| s.1.len() > 0),
        sections_view(old(result)@) == all.take(i).filter(non_empty),
    ensures
        sections_view(final(result)@) == all.take(i + 1).filter(non_empty),
{
    proof {
        assert(all.take(i + 1) =~= all.take(i).push(all[i]));
        all.take(i).lemma_filter_push(all[i], non_empty);
    }
    if entries.len() > 0 {
        push_section(result, title, entries);
    }
}

/// The title of the summary: the board's name, else the device model, else the
/// processor's name, else "Computer".
pub open spec fn device_title_spec(info: HardwareFacts, about: AboutInfo) -> Seq<char> {
    match or_else(
        or_else(opt_view(info.firmware.board_name), opt_view(about.device_info.model)),
        opt_view(info.cpu.name),
    ) {
        Some(t) => t,
        None => "Computer"@,
    }
}

/// The title of the summary; see `device_title_spec`.
pub fn device_title(info: &HardwareFacts, about: &AboutInfo) -> (title: String)
    ensures
        title@ == device_title_spec(*info, *about),
{
    match first_of(&info.firmware.board_name, &about.device_info.model) {
        Some(t) => t,
        None => match copied(&info.cpu.name) {
            Some(t) => t,
            None => String::from_str("Computer"),
        },
    }
}

/// The subtitle of the summary: the operating system's pretty name, else its name,
/// else "Linux".
pub open spec fn device_subtitle_spec(about: AboutInfo) -> Seq<char> {
    match or_else(opt_view(about.os_info.pretty_name), opt_view(about.os_info.name)) {
        Some(t) => t,
        None => "Linux"@,
    }
}

/// The subtitle of the summary; see `device_subtitle_spec`.
pub fn device_subtitle(about: &AboutInfo) -> (subtitle: String)
    ensures
        subtitle@ == device_subtitle_spec(*about),
{
    match first_of(&about.os_info.pretty_name, &about.os_info.name) {
        Some(t) => t,
        None => String::from_str("Linux"),
    }
}

/// The names of the GPUs that say something, in the order the GPUs are given.
pub open spec fn gpu_names(gpus: Seq<GpuFacts>) -> Seq<Seq<char>>
    decreases gpus.len(),
{
    if gpus.len() == 0 {
        Seq::empty()
    } else {
        let rest = gpu_names(gpus.drop_last());
        match cleaned(opt_view(gpus.last().device_name)) {
            Some(n) => rest.push(n),
            None => rest,
        }
    }
}

/// The key facts shown under the title: processor, installed memory, and the GPU
/// names in alphabetical order.
pub open spec fn device_specs_spec(info: HardwareFacts) -> Seq<Seq<char>> {
    let names = gpu_names(info.gpus@);
    (match cleaned(opt_view(info.cpu.name)) {
        Some(c) => seq![c],
        None => Seq::empty(),
    }) + (if info.memory.mem_total.value > 0 {
        seq![info.memory.mem_total.text@ + " RAM"@]
    } else {
        Seq::empty()
    }) + id_order(names, names.len()).map_values(|k: int| names[k])
}

/// The key facts shown under the title; see `device_specs_spec`.
pub fn device_specs(info: &HardwareFacts) -> (specs: Vec<String>)
    ensures
        views(specs@) == device_specs_spec(*info),
{
    let mut specs: Vec<String> = Vec::new();
    if let Some(cpu) = clean(copied(&info.cpu.name)) {
        specs.push(cpu);
    }
    if info.memory.mem_total.value > 0 {
        let mut ram = info.memory.mem_total.text.clone();
        ram.append(" RAM");
        specs.push(ram);
    }
    let ghost head = views(specs@);
    let mut names: Vec<String> = Vec::new();
    let mut i: usize = 0;
    while i < info.gpus.len()
        invariant
            i <= info.gpus@.len(),
            views(names@) == gpu_names(info.gpus@.take(i as int)),
        decreases info.gpus.len() - i,
    {
        let ghost t = info.gpus@.take(i + 1);
        assert(t.drop_last() =~= info.gpus@.take(i as int));
        let ghost before = names@;
        if let Some(n) = clean(copied(&info.gpus[i].device_name)) {
            names.push(n);
            assert(views(names@) =~= views(before).push(names@.last()@));
        }
        i += 1;
    }
    assert(info.gpus@.take(info.gpus@.len() as int) =~= info.gpus@);
    let order = sorted_indices(&names);
    let ghost full = id_order(views(names@), names@.len());
    proof {
        lemma_id_order_range(views(names@), names@.len());
    }
    let mut k: usize = 0;
    while k < order.len()
        invariant
            k <= order@.len(),
            order@.len() == names@.len(),
            full.len() == names@.len(),
            forall|j: int| 0 <= j < order@.len() ==> order@[j] as int == full[j],
            forall|j: int| 0 <= j < order@.len() ==> #[trigger] order@[j] < names@.len(),
            views(specs@) == head + full.take(k as int).map_values(|m: int| views(names@)[m]),
        decreases order.len() - k,
    {
        let ghost before = specs@;
        specs.push(names[order[k]].clone());
        proof {
            assert(full.take(k + 1) =~= full.take(k as int).push(full[k as int]));
            assert(views(specs@) =~= views(before).push(views(names@)[full[k as int]]));
            assert(full.take(k + 1).map_values(|m: int| views(names@)[m]) =~= full.take(
                k as int,
            ).map_values(|m: int| views(names@)[m]).push(views(names@)[full[k as int]]));
        }
        k += 1;
    }
    proof {
        assert(full.take(k as int) =~= full);
        assert(views(specs@) =~= device_specs_spec(*info));
    }
    specs
}

/// The lines a section contributes to the copied summary: one per entry, the host
/// name left out.
pub open spec fn entry_lines(entries: Seq<InfoEntry>) -> Seq<Seq<char>>
    decreases entries.len(),
{
    if entries.len() == 0 {
        Seq::empty()
    } else {
        let rest = entry_lines(entries.drop_last());
        let e = entries.last();
        if e.name@ == "Host Name"@ {
            rest
        } else {
            rest.push(e.name@ + ": "@ + e.value@)
        }
    }
}

/// A section as copied: its title, then its entry lines.
pub open spec fn section_text(s: InfoSection) -> Seq<char> {
    s.title@ + "\n"@ + join_with(entry_lines(s.entries@), "\n"@)
}

/// The whole summary as copied to the clipboard: the hardware sections, then the
/// software sections, separated by blank lines.
pub open spec fn summary_text_spec(hardware: Seq<InfoSection>, software: Seq<InfoSection>) -> Seq<
    char,
> {
    join_with((hardware + software).map_values(|s: InfoSection| section_text(s)), "\n\n"@)
}

fn section_copy_text(s: &InfoSection) -> (text: String)
    ensures
        text@ == section_text(*s),
{
    let mut lines: Vec<String> = Vec::new();
    let mut i: usize = 0;
    while i < s.entries.len()
        invariant
            i <= s.entries@.len(),
            views(lines@) == entry_lines(s.entries@.take(i as int)),
        decreases s.entries.len() - i,
    {
        let ghost t = s.entries@.take(i + 1);
        assert(t.drop_last() =~= s.entries@.take(i as int));
        let e = &s.entries[i];
        if !crate::sidebar::str_eq(e.name.as_str(), "Host Name") {
            let ghost before = lines@;
            let mut line = e.name.clone();
            line.append(": ");
            line.append(e.value.as_str());
            lines.push(line);
            assert(views(lines@) =~= views(before).push(e.name@ + ": "@ + e.value@));
        }
        i += 1;
    }
    assert(s.entries@.take(s.entries@.len() as int) =~= s.entries@);
    let mut text = s.title.clone();
    text.append("\n");
    let body = join_strings(&lines, "\n");
    text.append(body.as_str());
    text
}

/// The summary as copied to the clipboard; see `summary_text_spec`.
pub fn summary_text(hardware: &Vec<InfoSection>, software: &Vec<InfoSection>) -> (text: String)
    ensures
        text@ == summary_text_spec(hardware@, software@),
{
    let mut parts: Vec<String> = Vec::new();
    let ghost all = hardware@ + software@;
    let mut i: usize = 0;
    while i < hardware.len()
        invariant
            i <= hardware@.len(),
            all == hardware@ + software@,
            views(parts@) == all.take(i as int).map_values(|s: InfoSection| section_text(s)),
        decreases hardware.len() - i,
    {
        let ghost before = parts@;
        let t = section_copy_text(&hardware[i]);
        let ghost tv = t@;
        parts.push(t);
        assert(views(parts@) =~= views(before).push(tv));
        assert(all.take(i + 1) =~= all.take(i as int).push(hardware@[i as int]));
        assert(views(parts@) =~= all.take(i + 1).map_values(|s: InfoSection| section_text(s)));
        i += 1;
    }
    let mut j: usize = 0;
    while j < software.len()
        invariant
            j <= software@.len(),
            i == hardware@.len(),
            all == hardware@ + software@,
            views(parts@) == all.take(i + j).map_values(|s: InfoSection| section_text(s)),
        decreases software.len() - j,
    {
        let ghost before = parts@;
        let t = section_copy_text(&software[j]);
        let ghost tv = t@;
        parts.push(t);
        assert(views(parts@) =~= views(before).push(tv));
        assert(all.take(i + j + 1) =~= all.take(i + j).push(software@[j as int]));
        assert(views(parts@) =~= all.take(i + j + 1).map_values(|s: InfoSection| section_text(s)));
        j += 1;
    }
    assert(all.take(i + j) =~= all);
    join_strings(&parts, "\n\n")
}

/// `order` lists indices in non-decreasing order of their ids, equal ids by index.
pub open spec fn is_stably_sorted_by_id(order: Seq<int>, ids: Seq<Seq<char>>) -> bool {
    forall|a: int, b: int|
        0 <= a < b < order.len() ==> !lex_lt(ids[#[trigger] order[b]], ids[#[trigger] order[a]])
            && (ids[order[a]] == ids[order[b]] ==> order[a] < order[b])
}

proof fn lemma_insert_index_sorted(order: Seq<int>, ids: Seq<Seq<char>>, i: int)
    requires
        is_stably_sorted_by_id(order, ids),
        forall|k: int| 0 <= k < order.len() ==> 0 <= #[trigger] order[k] < i,
        0 <= i < ids.len(),
    ensures
        is_stably_sorted_by_id(insert_index_by_id(order, ids, i), ids),
        insert_index_by_id(order, ids, i).len() == order.len() + 1,
        forall|x: int| #[trigger] insert_index_by_id(order, ids, i).contains(x) <==> (order.contains(x) || x == i),
    decreases order.len(),
{
    let r = insert_index_by_id(order, ids, i);
    if order.len() == 0 {
        assert(r[0] == i);
        assert forall|x: int| #[trigger] r.contains(x) <==> (order.contains(x) || x == i) by {
            if r.contains(x) {
                let k = choose|k: int| 0 <= k < r.len() && r[k] == x;
            }
        }
    } else if lex_lt(ids[i], ids[order[0]]) {
        assert(r == seq![i] + order);
        assert forall|x: int| #[trigger] r.contains(x) <==> (order.contains(x) || x == i) by {
            if r.contains(x) {
                let k = choose|k: int| 0 <= k < r.len() && r[k] == x;
                if k > 0 {
                    assert(order[k - 1] == x);
                }
            }
            if order.contains(x) {
                let k = choose|k: int| 0 <= k < order.len() && order[k] == x;
                assert(r[k + 1] == x);
            }
            if x == i {
                assert(r[0] == i);
            }
        }
        assert forall|a: int, b: int| 0 <= a < b < r.len() implies !lex_lt(ids[#[trigger] r[b]], ids[#[trigger] r[a]])
            && (ids[r[a]] == ids[r[b]] ==> r[a] < r[b]) by {
            if a == 0 {
                let y = r[b];
                assert(y == order[b - 1]);
                if b - 1 > 0 {
                    assert(!lex_lt(ids[order[b - 1]], ids[order[0]]));
                    lemma_lex_total(ids[order[b - 1]], ids[order[0]]);
                    if ids[order[b - 1]] != ids[order[0]] {
                        lemma_lex_transitive(ids[i], ids[order[0]], ids[order[b - 1]]);
                    }
                }
                if b - 1 == 0 {
                }
                lemma_lex_asymmetric(ids[i], ids[y]);
                if ids[i] == ids[y] {
                    lemma_lex_irreflexive(ids[i]);
                }
            } else {
                assert(r[a] == order[a - 1] && r[b] == order[b - 1]);
            }
        }
    } else {
        let rest = order.drop_first();
        assert(is_stably_sorted_by_id(rest, ids)) by {
            assert forall|a: int, b: int| 0 <= a < b < rest.len() implies !lex_lt(ids[#[trigger] rest[b]], ids[#[trigger] rest[a]])
                && (ids[rest[a]] == ids[rest[b]] ==> rest[a] < rest[b]) by {
                assert(rest[a] == order[a + 1] && rest[b] == order[b + 1]);
            }
        }
        assert forall|k: int| 0 <= k < rest.len() implies 0 <= #[trigger] rest[k] < i by {
            assert(rest[k] == order[k + 1]);
        }
        lemma_insert_index_sorted(rest, ids, i);
        let t = insert_index_by_id(rest, ids, i);
        assert(r == seq![order[0]] + t);
        assert forall|x: int| #[trigger] r.contains(x) <==> (order.contains(x) || x == i) by {
            if r.contains(x) {
                let k = choose|k: int| 0 <= k < r.len() && r[k] == x;
                if k > 0 {
                    assert(t[k - 1] == x);
                    assert(t.contains(x));
                    if rest.contains(x) {
                        let m = choose|m: int| 0 <= m < rest.len() && rest[m] == x;
                        assert(order[m + 1] == x);
                    }
                }
            }
            if order.contains(x) {
                let k = choose|k: int| 0 <= k < order.len() && order[k] == x;
                if k > 0 {
                    assert(rest[k - 1] == x);
                    assert(rest.contains(x));
                    assert(t.contains(x));
                    let m = choose|m: int| 0 <= m < t.len() && t[m] == x;
                    assert(r[m + 1] == x);
                } else {
                    assert(r[0] == x);
                }
            }
            if x == i {
                assert(t.contains(i));
                let m = choose|m: int| 0 <= m < t.len() && t[m] == i;
                assert(r[m + 1] == i);
            }
        }
        assert forall|a: int, b: int| 0 <= a < b < r.len() implies !lex_lt(ids[#[trigger] r[b]], ids[#[trigger] r[a]])
            && (ids[r[a]] == ids[r[b]] ==> r[a] < r[b]) by {
            if a == 0 {
                let y = r[b];
                assert(t[b - 1] == y);
                assert(t.contains(y));
                if y == i {
                    assert(order[0] < i);
                } else {
                    assert(order.contains(y));
                    let m = choose|m: int| 0 <= m < order.len() && order[m] == y;
                    if m == 0 {
                        lemma_lex_irreflexive(ids[y]);
                        // `y` cannot be `order[0]` again: `t` lists each index once
                        assert(rest.contains(y) || y == i);
                        if rest.contains(y) {
                            let q = choose|q: int| 0 <= q < rest.len() && rest[q] == y;
                            assert(order[q + 1] == y);
                            assert(!lex_lt(ids[order[q + 1]], ids[order[0]]));
                            assert(ids[order[0]] == ids[order[q + 1]] ==> order[0] < order[q + 1]);
                        }
                    } else {
                        assert(!lex_lt(ids[order[m]], ids[order[0]]));
                    }
                }
            } else {
                assert(r[a] == t[a - 1] && r[b] == t[b - 1]);
            }
        }
    }
}

/// Listing the GPUs and drives by id: `id_order` lists every index below `n` once, in
/// non-decreasing order of the ids, equal ids in their given order.
pub proof fn lemma_id_order_sorted(ids: Seq<Seq<char>>, n: nat)
    requires
        n <= ids.len(),
    ensures
        is_stably_sorted_by_id(id_order(ids, n), ids),
        id_order(ids, n).len() == n,
        forall|x: int| #[trigger] id_order(ids, n).contains(x) <==> 0 <= x < n,
    decreases n,
{
    if n > 0 {
        lemma_id_order_sorted(ids, (n - 1) as nat);
        let prev = id_order(ids, (n - 1) as nat);
        assert forall|k: int| 0 <= k < prev.len() implies 0 <= #[trigger] prev[k] < n - 1 by {
            assert(prev.contains(prev[k]));
        }
        lemma_insert_index_sorted(prev, ids, n - 1);
        assert forall|x: int| #[trigger] id_order(ids, n).contains(x) <==> 0 <= x < n by {
            assert(prev.contains(x) <==> 0 <= x < n - 1);
        }
    }
}

} // verus!
