//! The switch state of the GPU compute engines (stroke batching and liquify
//! deformation): whether they are enabled by the user, whether an engine is
//! installed on the current device, and how many batches they completed.
use vstd::prelude::*;
use crate::drawing::tools::ToolKind;

verus! {

/// The state of one GPU compute engine.
#[derive(Debug, Clone, Copy, PartialEq, Eq, Structural)]
pub struct GpuSwitch {
    pub enabled: bool,
    pub installed: bool,
    pub batches: u64,
}

/// The fewest points a liquify deformation sends to the GPU.
pub open spec fn gpu_point_threshold() -> int {
    256
}

/// A call that changes an engine's switch.
pub enum GpuEvent {
    /// The user turns the engine on or off.
    SetEnabled(bool),
    /// An engine was installed on the device.
    Install,
    /// The installed engine was dropped, as after a failed dispatch.
    Disable,
    /// A batch completed on the engine.
    Batch,
}

/// The switch after `e`.
pub open spec fn apply_event(s: GpuSwitch, e: GpuEvent) -> GpuSwitch {
    match e {
        GpuEvent::SetEnabled(v) => GpuSwitch { enabled: v, ..s },
        GpuEvent::Install => GpuSwitch { installed: true, ..s },
        GpuEvent::Disable => GpuSwitch { installed: false, ..s },
        GpuEvent::Batch => batch_step(s),
    }
}

/// The switch after the calls `events`, in order.
pub open spec fn replay(s: GpuSwitch, events: Seq<GpuEvent>) -> GpuSwitch
    decreases events.len(),
{
    if events.len() == 0 { s } else { apply_event(replay(s, events.drop_last()), events.last()) }
}

/// The value the last call to turn the engine on or off passed, or `before`
/// when there was none.
pub open spec fn last_choice(before: bool, events: Seq<GpuEvent>) -> bool
    decreases events.len(),
{
    if events.len() == 0 {
        before
    } else {
        match events.last() {
            GpuEvent::SetEnabled(v) => v,
            _ => last_choice(before, events.drop_last()),
        }
    }
}

/// Whether the last install or drop of the engine was an install, or
/// `before` when there was neither.
pub open spec fn last_installed(before: bool, events: Seq<GpuEvent>) -> bool
    decreases events.len(),
{
    if events.len() == 0 {
        before
    } else {
        match events.last() {
            GpuEvent::Install => true,
            GpuEvent::Disable => false,
            _ => last_installed(before, events.drop_last()),
        }
    }
}

/// The number of completed batches among `events`.
pub open spec fn batch_count(events: Seq<GpuEvent>) -> nat
    decreases events.len(),
{
    if events.len() == 0 {
        0
    } else {
        batch_count(events.drop_last()) + if events.last() is Batch { 1nat } else { 0nat }
    }
}

/// Over any sequence of calls: the engine is enabled exactly as the last
/// choice of the user says, installed exactly when it was installed and not
/// dropped since, and so available only then; and its counter has grown by
/// the batches completed, modulo 2^64 (exactly, short of wrapping).
pub proof fn lemma_switch_history(s: GpuSwitch, events: Seq<GpuEvent>)
    ensures
        replay(s, events).enabled == last_choice(s.enabled, events),
        replay(s, events).installed == last_installed(s.installed, events),
        (replay(s, events).enabled && replay(s, events).installed)
            == (last_choice(s.enabled, events) && last_installed(s.installed, events)),
        replay(s, events).batches == (s.batches + batch_count(events)) % 0x1_0000_0000_0000_0000,
        s.batches + batch_count(events) <= u64::MAX ==> replay(s, events).batches - s.batches == batch_count(events),
    decreases events.len(),
{
    if events.len() > 0 {
        let rest = events.drop_last();
        lemma_switch_history(s, rest);
        let r = replay(s, rest);
        if events.last() is Batch {
            let m = (s.batches + batch_count(rest)) % 0x1_0000_0000_0000_0000;
            assert(r.batches == m);
            if m == u64::MAX {
                assert((s.batches + batch_count(rest) + 1) % 0x1_0000_0000_0000_0000 == 0) by (nonlinear_arith)
                    requires (s.batches + batch_count(rest)) % 0x1_0000_0000_0000_0000 == 0xFFFF_FFFF_FFFF_FFFF,
                        s.batches + batch_count(rest) >= 0;
            } else {
                assert((s.batches + batch_count(rest) + 1) % 0x1_0000_0000_0000_0000 == m + 1) by (nonlinear_arith)
                    requires m == (s.batches + batch_count(rest)) % 0x1_0000_0000_0000_0000, m < 0xFFFF_FFFF_FFFF_FFFF,
                        s.batches + batch_count(rest) >= 0;
            }
        }
    }
}

/// The switch after one more completed batch: the counter wraps at
/// `u64::MAX`, as an atomic add does.
pub open spec fn batch_step(s: GpuSwitch) -> GpuSwitch {
    GpuSwitch { batches: if s.batches == u64::MAX { 0 } else { (s.batches + 1) as u64 }, ..s }
}

impl GpuSwitch {
    /// A switch at start-up: enabled, no engine installed yet, no batch done.
    pub fn new() -> (s: Self)
        ensures
            s == (GpuSwitch { enabled: true, installed: false, batches: 0 }),
    {
        GpuSwitch { enabled: true, installed: false, batches: 0 }
    }

    /// Turn the engine on or off; an installed engine stays installed.
    pub fn set_enabled(&mut self, value: bool)
        ensures
            *final(self) == apply_event(*old(self), GpuEvent::SetEnabled(value)),
    {
        self.enabled = value;
    }

    /// How many batches the engine completed.
    pub fn completed_batches(&self) -> (n: u64)
        ensures
            n == self.batches,
    {
        self.batches
    }

    /// Whether work may go to the engine: it is enabled and installed.
    pub fn available(&self) -> (b: bool)
        ensures
            b == (self.enabled && self.installed),
    {
        self.enabled && self.installed
    }

    /// Record that an engine was installed on the device.
    pub fn install(&mut self)
        ensures
            *final(self) == apply_event(*old(self), GpuEvent::Install),
    {
        self.installed = true;
    }

    /// Drop the installed engine, as after a failed dispatch; the user's
    /// choice and the batch count stay.
    pub fn disable(&mut self)
        ensures
            *final(self) == apply_event(*old(self), GpuEvent::Disable),
    {
        self.installed = false;
    }

    /// Count one completed batch (the counter wraps, as an atomic add does).
    pub fn record_batch(&mut self)
        ensures
            *final(self) == apply_event(*old(self), GpuEvent::Batch),
    {
        self.batches = if self.batches == u64::MAX { 0 } else { self.batches + 1 };
    }

    /// Whether a liquify deformation of `points` points is tried on the
    /// GPU: the engine is enabled and the batch is large enough to pay for
    /// the transfer.
    pub fn offloads(&self, points: usize) -> (b: bool)
        ensures
            b == (self.enabled && points >= gpu_point_threshold()),
    {
        self.enabled && points >= 256
    }
}

/// Whether strokes of `tool` can be batched on the GPU: the pencil, the
/// eraser and the tissue.
pub fn eligible(tool: ToolKind) -> (b: bool)
    ensures
        b == (tool == ToolKind::Pencil || tool == ToolKind::Eraser || tool == ToolKind::Tissue),
{
    match tool {
        ToolKind::Pencil | ToolKind::Eraser | ToolKind::Tissue => true,
        _ => false,
    }
}

} // verus!
