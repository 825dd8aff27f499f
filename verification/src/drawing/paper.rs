//! The paper surfaces and paper tints a drawing can start on.
use vstd::prelude::*;

verus! {

/// A paper surface, by its tooth.
#[derive(Debug, Clone, Copy, PartialEq, Eq, Structural)]
pub enum PaperPreset {
    SmoothBristol,
    DrawingMedium,
    RoughSketch,
}

impl PaperPreset {
    pub open spec fn spec_label(self) -> Seq<char> {
        match self {
            PaperPreset::SmoothBristol => "Smooth Bristol"@,
            PaperPreset::DrawingMedium => "Drawing paper"@,
            PaperPreset::RoughSketch => "Rough sketch paper"@,
        }
    }

    /// The surface's name in the interface.
    pub fn label(self) -> (s: &'static str)
        ensures
            s@ == self.spec_label(),
    {
        match self {
            PaperPreset::SmoothBristol => "Smooth Bristol",
            PaperPreset::DrawingMedium => "Drawing paper",
            PaperPreset::RoughSketch => "Rough sketch paper",
        }
    }

    pub open spec fn spec_seed(self) -> u32 {
        match self {
            PaperPreset::SmoothBristol => 0x25A1_91B3,
            PaperPreset::DrawingMedium => 0x6CB4_713D,
            PaperPreset::RoughSketch => 0xA307_E95F,
        }
    }

    /// The seed of the surface's generated grain, fixed so that a surface
    /// looks the same every time.
    pub fn seed(self) -> (s: u32)
        ensures
            s == self.spec_seed(),
    {
        match self {
            PaperPreset::SmoothBristol => 0x25A1_91B3,
            PaperPreset::DrawingMedium => 0x6CB4_713D,
            PaperPreset::RoughSketch => 0xA307_E95F,
        }
    }

    /// Every surface, from smoothest to roughest.
    pub fn all() -> (presets: [PaperPreset; 3])
        ensures
            presets@ == seq![PaperPreset::SmoothBristol, PaperPreset::DrawingMedium, PaperPreset::RoughSketch],
    {
        let presets = [PaperPreset::SmoothBristol, PaperPreset::DrawingMedium, PaperPreset::RoughSketch];
        assert(presets@ =~= seq![PaperPreset::SmoothBristol, PaperPreset::DrawingMedium, PaperPreset::RoughSketch]);
        presets
    }
}

/// A paper tint and fibre pattern.
#[derive(Debug, Clone, Copy, PartialEq, Eq, Structural)]
pub enum PaperTexturePreset {
    White,
    Recycled,
    Ivory,
}

impl PaperTexturePreset {
    pub open spec fn spec_label(self) -> Seq<char> {
        match self {
            PaperTexturePreset::White => "White"@,
            PaperTexturePreset::Recycled => "Recycled"@,
            PaperTexturePreset::Ivory => "Ivory"@,
        }
    }

    /// The tint's name in the interface.
    pub fn label(self) -> (s: &'static str)
        ensures
            s@ == self.spec_label(),
    {
        match self {
            PaperTexturePreset::White => "White",
            PaperTexturePreset::Recycled => "Recycled",
            PaperTexturePreset::Ivory => "Ivory",
        }
    }

    pub open spec fn spec_seed(self) -> u32 {
        match self {
            PaperTexturePreset::White => 0xF3A2_117D,
            PaperTexturePreset::Recycled => 0x6F42_B1E9,
            PaperTexturePreset::Ivory => 0xAE81_37C5,
        }
    }

    /// The seed of the tint's generated fibres.
    pub fn seed(self) -> (s: u32)
        ensures
            s == self.spec_seed(),
    {
        match self {
            PaperTexturePreset::White => 0xF3A2_117D,
            PaperTexturePreset::Recycled => 0x6F42_B1E9,
            PaperTexturePreset::Ivory => 0xAE81_37C5,
        }
    }

    /// Every tint, in menu order.
    pub fn all() -> (presets: [PaperTexturePreset; 3])
        ensures
            presets@ == seq![PaperTexturePreset::White, PaperTexturePreset::Recycled, PaperTexturePreset::Ivory],
    {
        let presets = [PaperTexturePreset::White, PaperTexturePreset::Recycled, PaperTexturePreset::Ivory];
        assert(presets@ =~= seq![PaperTexturePreset::White, PaperTexturePreset::Recycled, PaperTexturePreset::Ivory]);
        presets
    }
}

} // verus!
