//! Which pen contact owns the canvas: the decisions taken on each tablet
//! packet before its pressure and position are read.
use vstd::prelude::*;

verus! {

/// The phase of a tablet packet.
#[derive(Debug, Clone, Copy, PartialEq, Eq, Structural)]
pub enum PenPhase {
    Down,
    Move,
    Up,
    Cancel,
    Hover,
}

impl Default for PenPhase {
    fn default() -> (p: Self)
        ensures
            p == PenPhase::Hover,
    {
        PenPhase::Hover
    }
}

/// What one packet does to the pen contact.
#[derive(Debug, Clone, Copy, PartialEq, Eq, Structural)]
pub struct ContactStep {
    /// The open contact ends first (a release frame with no position).
    pub release: bool,
    /// The pen's hover orientation is read from this packet.
    pub hover: bool,
    /// The packet becomes a drawing frame of the contact.
    pub emit: bool,
    /// The contact open after the packet.
    pub owner: Option<u32>,
}

/// The contact left after an earlier contact is forcibly ended: a hover by
/// the owning pen, or any new press, ends the open contact, since some
/// tablet drivers omit the release.
pub open spec fn after_recovery(owner: Option<u32>, id: u32, phase: PenPhase) -> Option<u32> {
    if (owner == Some(id) && phase == PenPhase::Hover) || (owner is Some && phase == PenPhase::Down) {
        None
    } else {
        owner
    }
}

/// Whether a packet recovers a missing release.
pub open spec fn recovers(owner: Option<u32>, id: u32, phase: PenPhase) -> bool {
    (owner == Some(id) && phase == PenPhase::Hover) || (owner is Some && phase == PenPhase::Down)
}

/// The effect of a packet from pen `id` in `phase`, at a position over the
/// canvas or not (`over_canvas`), while contact `owner` is open.
pub open spec fn contact_step(owner: Option<u32>, id: u32, phase: PenPhase, over_canvas: bool) -> ContactStep {
    if phase == PenPhase::Cancel {
        if id != 0 && owner is Some && owner != Some(id) {
            ContactStep { release: false, hover: false, emit: false, owner }
        } else {
            ContactStep { release: owner is Some, hover: false, emit: false, owner: None }
        }
    } else {
        let release = recovers(owner, id, phase);
        let open = after_recovery(owner, id, phase);
        if phase == PenPhase::Hover {
            ContactStep { release, hover: open is None && over_canvas, emit: false, owner: open }
        } else if phase == PenPhase::Down && (!over_canvas || open is Some) {
            ContactStep { release, hover: false, emit: false, owner: open }
        } else {
            let current = if phase == PenPhase::Down { Some(id) } else { open };
            if current != Some(id) {
                ContactStep { release, hover: false, emit: false, owner: current }
            } else {
                ContactStep { release, hover: false, emit: true, owner: if phase == PenPhase::Up { None } else { current } }
            }
        }
    }
}

/// Decide what a packet from pen `id` in `phase` does while contact `owner`
/// is open. A cancel from another pen is ignored; any other cancel ends the
/// contact. A press opens a contact only over the canvas and only once the
/// previous one has ended; moves and releases count only for the pen that
/// owns the contact, so an unowned move never draws.
pub fn pen_contact(owner: Option<u32>, id: u32, phase: PenPhase, over_canvas: bool) -> (s: ContactStep)
    ensures
        s == contact_step(owner, id, phase, over_canvas),
{
    if phase == PenPhase::Cancel {
        let other = match owner {
            Some(o) => id != 0 && o != id,
            None => false,
        };
        if other {
            return ContactStep { release: false, hover: false, emit: false, owner };
        }
        return ContactStep { release: owner.is_some(), hover: false, emit: false, owner: None };
    }
    let owned = match owner {
        Some(o) => o == id,
        None => false,
    };
    let release = (owned && phase == PenPhase::Hover) || (owner.is_some() && phase == PenPhase::Down);
    let open = if release { None } else { owner };
    if phase == PenPhase::Hover {
        return ContactStep { release, hover: open.is_none() && over_canvas, emit: false, owner: open };
    }
    if phase == PenPhase::Down && (!over_canvas || open.is_some()) {
        return ContactStep { release, hover: false, emit: false, owner: open };
    }
    let current = if phase == PenPhase::Down { Some(id) } else { open };
    let mine = match current {
        Some(c) => c == id,
        None => false,
    };
    if !mine {
        return ContactStep { release, hover: false, emit: false, owner: current };
    }
    ContactStep { release, hover: false, emit: true, owner: if phase == PenPhase::Up { None } else { current } }
}

/// Contacts never overlap: a packet that starts drawing a new contact either
/// found none open or ended the open one first; a packet that draws belongs
/// to the contact left open; and a move or release from a pen that owns no
/// contact never draws.
pub proof fn lemma_contacts_do_not_overlap(owner: Option<u32>, id: u32, phase: PenPhase, over_canvas: bool)
    ensures
        ({
            let s = contact_step(owner, id, phase, over_canvas);
            &&& (phase == PenPhase::Down && s.emit) ==> (owner is None || s.release) && s.owner == Some(id)
            &&& (s.emit && phase != PenPhase::Up) ==> s.owner == Some(id)
            &&& (s.emit && phase == PenPhase::Up) ==> s.owner is None
            &&& ((phase == PenPhase::Move || phase == PenPhase::Up) && owner != Some(id)) ==> !s.emit
        }),
{
}

} // verus!
