//! The drawing tools, pencil grades, erasers and shape kinds offered by the
//! tool panel.
use vstd::prelude::*;

verus! {

/// A drawing tool.
#[derive(Debug, Clone, Copy, PartialEq, Eq, Structural)]
pub enum ToolKind {
    Pencil,
    Smudge,
    Eraser,
    Brush,
    Tissue,
    Shapes,
    Lasso,
    VectorSelect,
}

impl ToolKind {
    pub open spec fn spec_label(self) -> Seq<char> {
        match self {
            ToolKind::Pencil => "Pencil"@,
            ToolKind::Smudge => "Smudge"@,
            ToolKind::Eraser => "Eraser"@,
            ToolKind::Brush => "Custom pencil"@,
            ToolKind::Tissue => "Tissue"@,
            ToolKind::Shapes => "Shapes"@,
            ToolKind::Lasso => "Free selection"@,
            ToolKind::VectorSelect => "Vector selection"@,
        }
    }

    /// The tool's name in the interface.
    pub fn label(self) -> (s: &'static str)
        ensures
            s@ == self.spec_label(),
    {
        match self {
            ToolKind::Pencil => "Pencil",
            ToolKind::Smudge => "Smudge",
            ToolKind::Eraser => "Eraser",
            ToolKind::Brush => "Custom pencil",
            ToolKind::Tissue => "Tissue",
            ToolKind::Shapes => "Shapes",
            ToolKind::Lasso => "Free selection",
            ToolKind::VectorSelect => "Vector selection",
        }
    }

    /// The tools of the palette, in order; custom pencils are reached
    /// through the pencil gallery instead.
    pub fn palette() -> (tools: [ToolKind; 7])
        ensures
            tools@ == seq![ToolKind::Pencil, ToolKind::Tissue, ToolKind::Smudge, ToolKind::Eraser,
                ToolKind::Shapes, ToolKind::VectorSelect, ToolKind::Lasso],
    {
        let tools = [ToolKind::Pencil, ToolKind::Tissue, ToolKind::Smudge, ToolKind::Eraser,
            ToolKind::Shapes, ToolKind::VectorSelect, ToolKind::Lasso];
        assert(tools@ =~= seq![ToolKind::Pencil, ToolKind::Tissue, ToolKind::Smudge, ToolKind::Eraser,
            ToolKind::Shapes, ToolKind::VectorSelect, ToolKind::Lasso]);
        tools
    }
}

/// Whether a stroke made with `tool` is saved to PSD as an editable shape
/// layer: polylines always are, as are the marking tools' strokes.
pub fn exports_as_shape(polyline: bool, tool: ToolKind) -> (b: bool)
    ensures
        b == (polyline || tool == ToolKind::Pencil || tool == ToolKind::Brush || tool == ToolKind::Tissue),
{
    polyline || match tool {
        ToolKind::Pencil | ToolKind::Brush | ToolKind::Tissue => true,
        _ => false,
    }
}

/// A pencil's hardness grade, from hard (4H) to soft (8B).
#[derive(Debug, Clone, Copy, PartialEq, Eq, Structural)]
pub enum PencilGrade {
    H4,
    H2,
    H,
    HB,
    B,
    B2,
    B4,
    B6,
    B8,
}

impl PencilGrade {
    pub open spec fn spec_label(self) -> Seq<char> {
        match self {
            PencilGrade::H4 => "4H"@,
            PencilGrade::H2 => "2H"@,
            PencilGrade::H => "H"@,
            PencilGrade::HB => "HB"@,
            PencilGrade::B => "B"@,
            PencilGrade::B2 => "2B"@,
            PencilGrade::B4 => "4B"@,
            PencilGrade::B6 => "6B"@,
            PencilGrade::B8 => "8B"@,
        }
    }

    /// The grade as printed on a pencil.
    pub fn label(self) -> (s: &'static str)
        ensures
            s@ == self.spec_label(),
    {
        match self {
            PencilGrade::H4 => "4H",
            PencilGrade::H2 => "2H",
            PencilGrade::H => "H",
            PencilGrade::HB => "HB",
            PencilGrade::B => "B",
            PencilGrade::B2 => "2B",
            PencilGrade::B4 => "4B",
            PencilGrade::B6 => "6B",
            PencilGrade::B8 => "8B",
        }
    }

    /// Every grade, from hardest to softest.
    pub fn all() -> (grades: [PencilGrade; 9])
        ensures
            grades@ == seq![PencilGrade::H4, PencilGrade::H2, PencilGrade::H, PencilGrade::HB, PencilGrade::B,
                PencilGrade::B2, PencilGrade::B4, PencilGrade::B6, PencilGrade::B8],
    {
        let grades = [PencilGrade::H4, PencilGrade::H2, PencilGrade::H, PencilGrade::HB, PencilGrade::B,
            PencilGrade::B2, PencilGrade::B4, PencilGrade::B6, PencilGrade::B8];
        assert(grades@ =~= seq![PencilGrade::H4, PencilGrade::H2, PencilGrade::H, PencilGrade::HB, PencilGrade::B,
            PencilGrade::B2, PencilGrade::B4, PencilGrade::B6, PencilGrade::B8]);
        grades
    }
}

/// The eraser a tool imitates.
#[derive(Debug, Clone, Copy, PartialEq, Eq, Structural)]
pub enum EraserKind {
    Vinyl,
    Kneaded,
}

/// Whether holding the pen still straightens a stroke, for settings saved
/// before the option existed.
pub fn hold_to_straighten_default() -> (b: bool)
    ensures
        b,
{
    true
}

/// A geometric shape drawn by the shapes tool.
#[derive(Debug, Clone, Copy, PartialEq, Eq, Structural)]
pub enum ShapeKind {
    Line,
    Circle,
    Triangle,
    Square,
}

impl ShapeKind {
    pub open spec fn spec_label(self) -> Seq<char> {
        match self {
            ShapeKind::Line => "Line"@,
            ShapeKind::Circle => "Circle"@,
            ShapeKind::Triangle => "Triangle"@,
            ShapeKind::Square => "Square"@,
        }
    }

    /// The shape's name in the interface.
    pub fn label(self) -> (s: &'static str)
        ensures
            s@ == self.spec_label(),
    {
        match self {
            ShapeKind::Line => "Line",
            ShapeKind::Circle => "Circle",
            ShapeKind::Triangle => "Triangle",
            ShapeKind::Square => "Square",
        }
    }

    /// Every shape, in menu order.
    pub fn all() -> (shapes: [ShapeKind; 4])
        ensures
            shapes@ == seq![ShapeKind::Line, ShapeKind::Circle, ShapeKind::Triangle, ShapeKind::Square],
    {
        let shapes = [ShapeKind::Line, ShapeKind::Circle, ShapeKind::Triangle, ShapeKind::Square];
        assert(shapes@ =~= seq![ShapeKind::Line, ShapeKind::Circle, ShapeKind::Triangle, ShapeKind::Square]);
        shapes
    }
}

} // verus!
