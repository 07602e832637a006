use vstd::prelude::*;

pub mod blur_region;
pub mod kwin_blur;
pub mod pages;
pub mod scaling;
pub mod series;
pub mod sidebar;
pub mod system_info;
pub mod text;

verus! {

} // verus!
