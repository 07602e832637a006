//! The regions a window asks the Wayland compositor to blur behind it and to treat as
//! opaque (ext-background-effect-v1). The regions are sent again only when they
//! change.

use vstd::prelude::*;
use wayland_protocols::ext::background_effect::v1::client::ext_background_effect_manager_v1::Capability;

verus! {

/// A rectangle: x, y, width, height.
pub type Region = (i32, i32, i32, i32);

/// Calls `Capability::Blur.bits()` of the ext-background-effect-v1 bindings; the
/// protocol gives the blur capability the bit value 1.
#[verifier::external_body]
fn blur_capability_bits() -> (bits: u32)
    ensures
        bits == 1,
{
    Capability::Blur.bits()
}

/// Whether the capability flags a compositor announced include blur.
pub fn capabilities_include_blur(flags: u32) -> (blur: bool)
    ensures
        blur == (flags & 1u32 != 0),
{
    flags & blur_capability_bits() != 0
}

/// The rectangle between the edges `x`, `y`, `right` and `bottom`; none when it is
/// empty.
pub open spec fn region_between(x: i32, y: i32, right: i32, bottom: i32) -> Option<Region> {
    if right - x > 0 && bottom - y > 0 {
        Some((x, y, (right - x) as i32, (bottom - y) as i32))
    } else {
        None
    }
}

/// The rectangle between four edges; see `region_between`. The width and height must
/// fit an `i32`.
pub fn region_from_edges(x: i32, y: i32, right: i32, bottom: i32) -> (region: Option<Region>)
    requires
        i32::MIN <= right - x <= i32::MAX,
        i32::MIN <= bottom - y <= i32::MAX,
    ensures
        region == region_between(x, y, right, bottom),
{
    let width = right - x;
    let height = bottom - y;
    if width > 0 && height > 0 {
        Some((x, y, width, height))
    } else {
        None
    }
}

fn same_region(a: Option<Region>, b: Option<Region>) -> (same: bool)
    ensures
        same == (a == b),
{
    match (a, b) {
        (Some(p), Some(q)) => p.0 == q.0 && p.1 == q.1 && p.2 == q.2 && p.3 == q.3,
        (None, None) => true,
        _ => false,
    }
}

/// The regions last sent to the compositor.
#[derive(Clone, Copy, Debug, PartialEq, Eq)]
pub struct RegionState {
    pub blur_region: Option<Region>,
    pub opaque_region: Option<Region>,
}

/// The regions of a window with a sidebar: the sidebar is blurred when the window is
/// shown uncollapsed and the compositor can blur; the content is opaque then, and the
/// whole window otherwise.
pub open spec fn sidebar_regions(
    visible: bool,
    collapsed: bool,
    supports_blur: bool,
    sidebar: Option<Region>,
    content: Option<Region>,
    width: i32,
    height: i32,
) -> RegionState {
    RegionState {
        blur_region: if visible && !collapsed && supports_blur {
            sidebar
        } else {
            None
        },
        opaque_region: if visible && !collapsed {
            content
        } else {
            Some((0, 0, width, height))
        },
    }
}

/// The regions of a window blurred as a whole: all of it when enabled, the compositor
/// can blur and the window has a size; nothing is opaque.
pub open spec fn full_regions(enabled: bool, supports_blur: bool, width: i32, height: i32) -> RegionState {
    RegionState {
        blur_region: if enabled && supports_blur && width > 0 && height > 0 {
            Some((0, 0, width, height))
        } else {
            None
        },
        opaque_region: None,
    }
}

impl RegionState {
    /// Nothing sent yet.
    pub fn new() -> (s: Self)
        ensures
            s == (RegionState { blur_region: None, opaque_region: None }),
    {
        RegionState { blur_region: None, opaque_region: None }
    }

    /// Records the regions of a window with a sidebar (see `sidebar_regions`) and tells
    /// whether they differ from those last sent, so must be sent.
    pub fn update(
        &mut self,
        visible: bool,
        collapsed: bool,
        supports_blur: bool,
        sidebar: Option<Region>,
        content: Option<Region>,
        width: i32,
        height: i32,
    ) -> (changed: bool)
        ensures
            *final(self) == sidebar_regions(
                visible,
                collapsed,
                supports_blur,
                sidebar,
                content,
                width,
                height,
            ),
            changed == (*final(self) != *old(self)),
    {
        let blur_region = if visible && !collapsed && supports_blur {
            sidebar
        } else {
            None
        };
        let opaque_region = if visible && !collapsed {
            content
        } else {
            Some((0, 0, width, height))
        };
        let unchanged = same_region(blur_region, self.blur_region) && same_region(
            opaque_region,
            self.opaque_region,
        );
        self.blur_region = blur_region;
        self.opaque_region = opaque_region;
        !unchanged
    }

    /// Records the regions of a window blurred as a whole (see `full_regions`) and
    /// tells whether they differ from those last sent.
    pub fn update_full(&mut self, enabled: bool, supports_blur: bool, width: i32, height: i32) -> (changed: bool)
        ensures
            *final(self) == full_regions(enabled, supports_blur, width, height),
            changed == (*final(self) != *old(self)),
    {
        let blur_region = if enabled && supports_blur && width > 0 && height > 0 {
            Some((0, 0, width, height))
        } else {
            None
        };
        let unchanged = same_region(blur_region, self.blur_region) && self.opaque_region.is_none();
        self.blur_region = blur_region;
        self.opaque_region = None;
        !unchanged
    }
}

/// What a window with a sidebar asks of the compositor: nothing is blurred unless the
/// window is shown uncollapsed and the compositor can blur, and then exactly the
/// sidebar is; the content is opaque while the window is shown uncollapsed, and the
/// whole window otherwise.
pub proof fn lemma_sidebar_regions(
    visible: bool,
    collapsed: bool,
    supports_blur: bool,
    sidebar: Option<Region>,
    content: Option<Region>,
    width: i32,
    height: i32,
)
    ensures
        ({
            let r = sidebar_regions(visible, collapsed, supports_blur, sidebar, content, width, height);
            &&& !visible ==> r.blur_region is None
            &&& collapsed ==> r.blur_region is None
            &&& !supports_blur ==> r.blur_region is None
            &&& r.blur_region is Some ==> r.blur_region == sidebar
            &&& visible && !collapsed && supports_blur ==> r.blur_region == sidebar
            &&& visible && !collapsed ==> r.opaque_region == content
            &&& !visible || collapsed ==> r.opaque_region == Some((0i32, 0i32, width, height))
        }),
{
}

/// What a window blurred as a whole asks of the compositor: all of it is blurred
/// exactly when the blur is enabled, the compositor can blur and the window has a
/// size; nothing is ever opaque.
pub proof fn lemma_full_regions(enabled: bool, supports_blur: bool, width: i32, height: i32)
    ensures
        ({
            let r = full_regions(enabled, supports_blur, width, height);
            &&& r.opaque_region is None
            &&& r.blur_region is Some <==> (enabled && supports_blur && width > 0 && height > 0)
            &&& r.blur_region is Some ==> r.blur_region == Some((0i32, 0i32, width, height))
        }),
{
}

/// A rectangle between four edges exists exactly when the right edge lies right of
/// the left one and the bottom below the top; it starts at the top-left corner and
/// spans the distances between the edges.
pub proof fn lemma_region_between(x: i32, y: i32, right: i32, bottom: i32)
    requires
        i32::MIN <= right - x <= i32::MAX,
        i32::MIN <= bottom - y <= i32::MAX,
    ensures
        region_between(x, y, right, bottom) is Some <==> (right > x && bottom > y),
        region_between(x, y, right, bottom) is Some ==> ({
            let r = region_between(x, y, right, bottom)->0;
            r.0 == x && r.1 == y && r.0 + r.2 == right && r.1 + r.3 == bottom
        }),
{
}

} // verus!
