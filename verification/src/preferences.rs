//! Display preferences: the hardware acceleration profile and the recent
//! files list, kept beside the executable.
use vstd::prelude::*;
use crate::recent_files::RecentFiles;
use crate::text::str_chars;

verus! {

/// A hardware acceleration profile.
#[derive(Debug, Clone, Copy, PartialEq, Eq, Structural)]
pub enum AccelerationMode {
    General,
    Radeon7900Xtx,
    IntelHd,
}

impl Default for AccelerationMode {
    fn default() -> (m: Self)
        ensures
            m == AccelerationMode::General,
    {
        AccelerationMode::General
    }
}

/// The profile a command-line argument asks for, if it is one of the
/// profile switches.
pub open spec fn switch_mode(arg: Seq<char>) -> Option<AccelerationMode> {
    if arg == "--intel-hd"@ {
        Some(AccelerationMode::IntelHd)
    } else if arg == "--general"@ {
        Some(AccelerationMode::General)
    } else if arg == "--xtx"@ {
        Some(AccelerationMode::Radeon7900Xtx)
    } else {
        None
    }
}

/// The profile asked for by the last profile switch among `args`.
pub open spec fn last_switch(args: Seq<Seq<char>>) -> Option<AccelerationMode>
    decreases args.len(),
{
    if args.len() == 0 {
        None
    } else {
        match switch_mode(args.last()) {
            Some(m) => Some(m),
            None => last_switch(args.drop_last()),
        }
    }
}

impl AccelerationMode {
    pub open spec fn spec_label(self) -> Seq<char> {
        match self {
            AccelerationMode::General => "General"@,
            AccelerationMode::Radeon7900Xtx => "AMD Radeon 7900 XTX"@,
            AccelerationMode::IntelHd => "Intel HD Graphics"@,
        }
    }

    /// The profile's name in the menu.
    pub fn label(self) -> (s: &'static str)
        ensures
            s@ == self.spec_label(),
    {
        match self {
            AccelerationMode::General => "General",
            AccelerationMode::Radeon7900Xtx => "AMD Radeon 7900 XTX",
            AccelerationMode::IntelHd => "Intel HD Graphics",
        }
    }

    pub open spec fn spec_description(self) -> Seq<char> {
        match self {
            AccelerationMode::General => "Balanced hardware selection, full display filtering, up to 60 canvas updates/s while drawing."@,
            AccelerationMode::Radeon7900Xtx => "Prefer a discrete AMD GPU and Vulkan, low frame latency, up to 120 canvas updates/s while drawing."@,
            AccelerationMode::IntelHd => "OpenGL compatibility for HD Graphics 2000. No display pyramid, window shadows or interface animations; up to 30 canvas updates/s while drawing."@,
        }
    }

    /// What the profile does, for the menu's tooltip.
    pub fn description(self) -> (s: &'static str)
        ensures
            s@ == self.spec_description(),
    {
        match self {
            AccelerationMode::General => "Balanced hardware selection, full display filtering, up to 60 canvas updates/s while drawing.",
            AccelerationMode::Radeon7900Xtx => "Prefer a discrete AMD GPU and Vulkan, low frame latency, up to 120 canvas updates/s while drawing.",
            AccelerationMode::IntelHd => "OpenGL compatibility for HD Graphics 2000. No display pyramid, window shadows or interface animations; up to 30 canvas updates/s while drawing.",
        }
    }

    pub open spec fn spec_updates_per_second(self) -> u32 {
        match self {
            AccelerationMode::General => 60,
            AccelerationMode::Radeon7900Xtx => 120,
            AccelerationMode::IntelHd => 30,
        }
    }

    /// How many times a second the canvas is redrawn while drawing.
    pub fn updates_per_second(self) -> (n: u32)
        ensures
            n == self.spec_updates_per_second(),
    {
        match self {
            AccelerationMode::General => 60,
            AccelerationMode::Radeon7900Xtx => 120,
            AccelerationMode::IntelHd => 30,
        }
    }

    /// Every profile, in menu order.
    pub fn all() -> (modes: [AccelerationMode; 3])
        ensures
            modes@ == seq![AccelerationMode::General, AccelerationMode::Radeon7900Xtx, AccelerationMode::IntelHd],
    {
        let modes = [AccelerationMode::General, AccelerationMode::Radeon7900Xtx, AccelerationMode::IntelHd];
        assert(modes@ =~= seq![AccelerationMode::General, AccelerationMode::Radeon7900Xtx, AccelerationMode::IntelHd]);
        modes
    }

    /// The profile asked for on the command line: the last of the switches
    /// `--intel-hd`, `--general` and `--xtx` among `args`.
    pub fn from_args(args: &[String]) -> (m: Option<Self>)
        ensures
            m == last_switch(args@.map_values(|a: String| a@)),
    {
        let ghost all = args@.map_values(|a: String| a@);
        let mut i: usize = args.len();
        assert(all.take(i as int) =~= all);
        while i > 0
            invariant
                i <= args@.len(),
                all == args@.map_values(|a: String| a@),
                last_switch(all) == last_switch(all.take(i as int)),
            decreases i,
        {
            let arg = str_chars(args[i - 1].as_str());
            assert(all.take(i as int).drop_last() =~= all.take(i - 1));
            assert(all.take(i as int).last() == arg@);
            if crate::export::chars_are(&arg, "--intel-hd") {
                return Some(AccelerationMode::IntelHd);
            }
            if crate::export::chars_are(&arg, "--general") {
                return Some(AccelerationMode::General);
            }
            if crate::export::chars_are(&arg, "--xtx") {
                return Some(AccelerationMode::Radeon7900Xtx);
            }
            i -= 1;
        }
        assert(all.take(0) =~= Seq::<Seq<char>>::empty());
        None
    }
}

/// The profile to start with: a legacy-only machine always gets the Intel
/// HD profile, so that a preference copied from a modern machine never locks
/// it out of the menu.
pub fn compatible_mode(requested: AccelerationMode, legacy_only: bool) -> (m: AccelerationMode)
    ensures
        m == (if legacy_only { AccelerationMode::IntelHd } else { requested }),
{
    if legacy_only { AccelerationMode::IntelHd } else { requested }
}

/// The profile to start with, from the command line's switch, else the
/// saved preference, else the default, made compatible with the machine.
pub fn startup_mode(from_args: Option<AccelerationMode>, saved: Option<AccelerationMode>, legacy_only: bool)
    -> (m: AccelerationMode)
    ensures
        m == (if legacy_only {
            AccelerationMode::IntelHd
        } else {
            match (from_args, saved) {
                (Some(a), _) => a,
                (None, Some(s)) => s,
                (None, None) => AccelerationMode::General,
            }
        }),
{
    let requested = match from_args {
        Some(a) => a,
        None => match saved {
            Some(s) => s,
            None => AccelerationMode::default(),
        },
    };
    compatible_mode(requested, legacy_only)
}

/// ASCII uppercase of one character; other characters are unchanged.
pub open spec fn ascii_upper(c: char) -> char {
    if 'a' <= c <= 'z' { ((c as u32) - 32) as char } else { c }
}

/// Whether `pattern` occurs in `text`.
pub open spec fn occurs(text: Seq<char>, pattern: Seq<char>) -> bool {
    exists|i: int| 0 <= i && i + pattern.len() <= text.len() && #[trigger] text.subrange(i, i + pattern.len()) == pattern
}

/// The device ids of the second-generation Intel HD Graphics chips.
pub open spec fn legacy_device(id: Seq<char>) -> bool {
    occurs(id, "DEV_0102"@) || occurs(id, "DEV_0106"@) || occurs(id, "DEV_010A"@) || occurs(id, "DEV_0112"@)
        || occurs(id, "DEV_0116"@) || occurs(id, "DEV_0122"@) || occurs(id, "DEV_0126"@)
}

/// Whether a display adapter's hardware id names an Intel HD Graphics
/// 2000/3000 chip, compared without ASCII case.
pub open spec fn legacy_intel(id: Seq<char>) -> bool {
    let up = id.map_values(|c: char| ascii_upper(c));
    occurs(up, "VEN_8086"@) && legacy_device(up)
}

/// The ASCII-uppercased characters of `s`.
fn uppercase_chars(s: &str) -> (out: Vec<char>)
    ensures
        out@ == s@.map_values(|c: char| ascii_upper(c)),
{
    let chars = str_chars(s);
    let mut out: Vec<char> = Vec::new();
    let mut i: usize = 0;
    while i < chars.len()
        invariant
            i <= chars@.len(),
            chars@ == s@,
            out@ == chars@.take(i as int).map_values(|c: char| ascii_upper(c)),
        decreases chars@.len() - i,
    {
        let c = chars[i];
        let u = if 'a' <= c && c <= 'z' { ((c as u32) - 32) as u8 as char } else { c };
        proof {
            if 'a' <= c <= 'z' {
                assert(u == ascii_upper(c));
            }
        }
        out.push(u);
        assert(chars@.take(i + 1).map_values(|c: char| ascii_upper(c))
            =~= chars@.take(i as int).map_values(|c: char| ascii_upper(c)).push(ascii_upper(c)));
        i += 1;
    }
    assert(chars@.take(chars@.len() as int) =~= chars@);
    out
}

/// Whether the literal `pattern` occurs in `text`.
fn occurs_in(text: &Vec<char>, pattern: &str) -> (b: bool)
    ensures
        b == occurs(text@, pattern@),
{
    let p = str_chars(pattern);
    let n = text.len();
    let m = p.len();
    if m > n {
        return false;
    }
    let mut i: usize = 0;
    while i <= n - m
        invariant
            m <= n,
            n == text@.len(),
            m == p@.len(),
            p@ == pattern@,
            forall|k: int| 0 <= k < i ==> #[trigger] text@.subrange(k, k + m) != p@,
        decreases n - i,
    {
        let mut j: usize = 0;
        let mut same = true;
        while j < m
            invariant
                j <= m,
                i + m <= n,
                n == text@.len(),
                m == p@.len(),
                same == (forall|q: int| 0 <= q < j ==> text@[i + q] == p@[q]),
            decreases m - j,
        {
            if text[i + j] != p[j] {
                assert(!(text@[i + j as int] == p@[j as int]));
                same = false;
            }
            j += 1;
        }
        if same {
            assert(text@.subrange(i as int, i + m) =~= p@);
            return true;
        }
        proof {
            let q = choose|q: int| 0 <= q < m && text@[i + q] != p@[q];
            assert(text@.subrange(i as int, i + m)[q] != p@[q]);
        }
        i += 1;
    }
    assert(forall|k: int| 0 <= k && k + m <= n ==> #[trigger] text@.subrange(k, k + m) != pattern@);
    false
}

/// Whether a display adapter's hardware id (such as
/// `PCI\VEN_8086&DEV_0102&...`) names an Intel HD Graphics 2000/3000 chip.
pub fn is_legacy_intel(id: &str) -> (b: bool)
    ensures
        b == legacy_intel(id@),
{
    let up = uppercase_chars(id);
    occurs_in(&up, "VEN_8086")
        && (occurs_in(&up, "DEV_0102") || occurs_in(&up, "DEV_0106") || occurs_in(&up, "DEV_010A")
            || occurs_in(&up, "DEV_0112") || occurs_in(&up, "DEV_0116") || occurs_in(&up, "DEV_0122")
            || occurs_in(&up, "DEV_0126"))
}

/// An adapter id that names Intel's vendor id (`VEN_8086`, in any ASCII case)
/// is legacy when it names one of the device ids of the Intel HD Graphics
/// 2000/3000 chips: `DEV_0102`, `DEV_0106`, `DEV_010A`, `DEV_0112`,
/// `DEV_0116`, `DEV_0122` or `DEV_0126`.
pub proof fn law_intel_hd_devices_are_legacy(id: Seq<char>, device: Seq<char>)
    requires
        device == "DEV_0102"@ || device == "DEV_0106"@ || device == "DEV_010A"@ || device == "DEV_0112"@
            || device == "DEV_0116"@ || device == "DEV_0122"@ || device == "DEV_0126"@,
        occurs(id.map_values(|c: char| ascii_upper(c)), "VEN_8086"@),
        occurs(id.map_values(|c: char| ascii_upper(c)), device),
    ensures
        legacy_intel(id),
{
}

/// An adapter id that names none of those seven device ids, or not Intel's
/// vendor id, is not legacy.
pub proof fn law_other_adapters_are_not_legacy(id: Seq<char>)
    requires
        !occurs(id.map_values(|c: char| ascii_upper(c)), "VEN_8086"@) || (
            !occurs(id.map_values(|c: char| ascii_upper(c)), "DEV_0102"@)
            && !occurs(id.map_values(|c: char| ascii_upper(c)), "DEV_0106"@)
            && !occurs(id.map_values(|c: char| ascii_upper(c)), "DEV_010A"@)
            && !occurs(id.map_values(|c: char| ascii_upper(c)), "DEV_0112"@)
            && !occurs(id.map_values(|c: char| ascii_upper(c)), "DEV_0116"@)
            && !occurs(id.map_values(|c: char| ascii_upper(c)), "DEV_0122"@)
            && !occurs(id.map_values(|c: char| ascii_upper(c)), "DEV_0126"@)),
    ensures
        !legacy_intel(id),
{
}

/// The largest preferences file that is read, in bytes.
pub open spec fn preferences_limit() -> int {
    2_097_152int
}

/// Whether a preferences file of `len` bytes is small enough to read.
pub fn preferences_size_ok(len: u64) -> (b: bool)
    ensures
        b == (len <= preferences_limit()),
{
    len <= 2 * 1024 * 1024
}

/// The saved preferences.
#[derive(Debug, Clone, Default)]
pub struct Preferences {
    pub acceleration: AccelerationMode,
    pub recent_files: RecentFiles,
}

} // verus!
