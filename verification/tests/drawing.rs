use graphite_studio::drawing::document::{full_layer_opacity, BlendMode, DirtyRect, LayerSelection};
use graphite_studio::drawing::liquify::Mode;
use graphite_studio::drawing::paper::{PaperPreset, PaperTexturePreset};
use graphite_studio::drawing::tools::{exports_as_shape, hold_to_straighten_default, PencilGrade, ShapeKind, ToolKind};
use graphite_studio::gallery::FolderCollection;
use graphite_studio::gpu::{eligible, GpuSwitch};

#[test]
fn dirty_rect_union_covers_both() {
    let a = DirtyRect::new(1, 2, 3, 4);
    let b = DirtyRect::new(0, 5, 2, 9);
    assert_eq!(a.union(b), DirtyRect::new(0, 2, 3, 9));
    assert_eq!(a.union(b), b.union(a));
    assert_eq!(a.union(a), a);
    assert_eq!(DirtyRect::full(7, 8), DirtyRect::new(0, 0, 7, 8));
    assert_eq!((a.width(), a.height()), (2, 2));
    assert!(DirtyRect::new(3, 0, 1, 5).is_empty());
    assert_eq!(DirtyRect::new(3, 0, 1, 5).width(), 0);
}

#[test]
fn labels_name_each_choice() {
    assert_eq!(BlendMode::Saturation.label(), "Saturation");
    assert_eq!(BlendMode::default(), BlendMode::Multiply);
    assert_eq!(BlendMode::all()[0], BlendMode::Multiply);
    assert_eq!(ToolKind::Brush.label(), "Custom pencil");
    assert_eq!(ToolKind::palette().len(), 7);
    assert_eq!(PencilGrade::B6.label(), "6B");
    assert_eq!(PencilGrade::all()[3], PencilGrade::HB);
    assert_eq!(ShapeKind::Triangle.label(), "Triangle");
    assert_eq!(Mode::default(), Mode::Push);
    assert_eq!(Mode::TwirlLeft.label(), "Twirl Left");
    assert_eq!(PaperPreset::DrawingMedium.label(), "Drawing paper");
    assert_eq!(PaperPreset::RoughSketch.seed(), 0xA307_E95F);
    assert_eq!(PaperTexturePreset::Ivory.label(), "Ivory");
    assert_eq!(PaperTexturePreset::White.seed(), 0xF3A2_117D);
    assert!(hold_to_straighten_default());
    assert_eq!(full_layer_opacity(), 255);
}

#[test]
fn marking_tools_and_polylines_export_as_shapes() {
    assert!(exports_as_shape(false, ToolKind::Pencil));
    assert!(exports_as_shape(true, ToolKind::Smudge));
    assert!(!exports_as_shape(false, ToolKind::Eraser));
}

#[test]
fn gpu_switch_needs_an_engine_and_the_user() {
    let mut s = GpuSwitch::new();
    assert!(!s.available());
    s.install();
    assert!(s.available());
    s.set_enabled(false);
    assert!(!s.available());
    assert!(!s.offloads(1000));
    s.set_enabled(true);
    assert!(s.offloads(256) && !s.offloads(255));
    s.record_batch();
    assert_eq!(s.completed_batches(), 1);
    s.disable();
    assert!(!s.available());
    assert_eq!(s.completed_batches(), 1);
}

#[test]
fn selections_and_collections_are_plain_data() {
    let s = LayerSelection::default();
    assert!(s.ids.is_empty() && !s.multiple);
    let c = FolderCollection { name: "Pens".to_string(), source: "/pens".to_string() };
    assert_eq!(c.name, "Pens");
}

#[test]
fn only_pencil_eraser_and_tissue_strokes_batch_on_the_gpu() {
    assert!(eligible(ToolKind::Pencil));
    assert!(eligible(ToolKind::Eraser));
    assert!(eligible(ToolKind::Tissue));
    assert!(!eligible(ToolKind::Smudge));
    assert!(!eligible(ToolKind::Shapes));
}

#[test]
fn batch_counts_grow_by_the_batches_done_and_wrap() {
    let mut s = GpuSwitch::new();
    let before = s.completed_batches();
    for _ in 0..5 {
        s.record_batch();
    }
    assert_eq!(s.completed_batches() - before, 5);
    let mut full = GpuSwitch { enabled: true, installed: true, batches: u64::MAX - 1 };
    full.record_batch();
    full.record_batch();
    assert_eq!(full.completed_batches(), 0);
    assert!(full.enabled && full.installed);
}
