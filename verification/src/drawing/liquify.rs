//! The liquify tool's deformation modes.
use vstd::prelude::*;

verus! {

/// How a liquify stroke moves the pixels under it.
#[derive(Debug, Clone, Copy, PartialEq, Eq, Structural)]
pub enum Mode {
    Push,
    TwirlLeft,
    TwirlRight,
    Pinch,
    Expand,
    Crystals,
    Edge,
    Reconstruct,
}

impl Default for Mode {
    fn default() -> (m: Self)
        ensures
            m == Mode::Push,
    {
        Mode::Push
    }
}

impl Mode {
    pub open spec fn spec_label(self) -> Seq<char> {
        match self {
            Mode::Push => "Push"@,
            Mode::TwirlLeft => "Twirl Left"@,
            Mode::TwirlRight => "Twirl Right"@,
            Mode::Pinch => "Pinch"@,
            Mode::Expand => "Expand"@,
            Mode::Crystals => "Crystals"@,
            Mode::Edge => "Edge"@,
            Mode::Reconstruct => "Reconstruct"@,
        }
    }

    /// The mode's name in the interface.
    pub fn label(self) -> (s: &'static str)
        ensures
            s@ == self.spec_label(),
    {
        match self {
            Mode::Push => "Push",
            Mode::TwirlLeft => "Twirl Left",
            Mode::TwirlRight => "Twirl Right",
            Mode::Pinch => "Pinch",
            Mode::Expand => "Expand",
            Mode::Crystals => "Crystals",
            Mode::Edge => "Edge",
            Mode::Reconstruct => "Reconstruct",
        }
    }

    /// Every mode, in menu order.
    pub fn all() -> (modes: [Mode; 8])
        ensures
            modes@ == seq![Mode::Push, Mode::TwirlLeft, Mode::TwirlRight, Mode::Pinch, Mode::Expand,
                Mode::Crystals, Mode::Edge, Mode::Reconstruct],
    {
        let modes = [Mode::Push, Mode::TwirlLeft, Mode::TwirlRight, Mode::Pinch, Mode::Expand,
            Mode::Crystals, Mode::Edge, Mode::Reconstruct];
        assert(modes@ =~= seq![Mode::Push, Mode::TwirlLeft, Mode::TwirlRight, Mode::Pinch, Mode::Expand,
            Mode::Crystals, Mode::Edge, Mode::Reconstruct]);
        modes
    }
}

} // verus!
