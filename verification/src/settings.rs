//! How strongly masks show.
use vstd::prelude::*;

verus! {

/// The opacities that layers are drawn with.
#[derive(Debug, PartialEq, Eq, Structural)]
#[non_exhaustive]
pub struct MaskSettings {
    pub default_opacity: u8,
    pub active_opacity: u8,
}

impl MaskSettings {
    pub open spec fn opacity_of(self, active: bool) -> u8 {
        if active {
            self.active_opacity
        } else {
            self.default_opacity
        }
    }

    /// The opacity of the active layer, or that of the others.
    pub fn opacity(&self, active: bool) -> (opacity: u8)
        ensures
            opacity == self.opacity_of(active),
            active ==> opacity == self.active_opacity,
            !active ==> opacity == self.default_opacity,
    {
        if active {
            self.active_opacity
        } else {
            self.default_opacity
        }
    }
}

impl Default for MaskSettings {
    fn default() -> (settings: Self)
        ensures
            settings == (MaskSettings { default_opacity: 128, active_opacity: 200 }),
    {
        MaskSettings { default_opacity: 128, active_opacity: 200 }
    }
}

} // verus!
