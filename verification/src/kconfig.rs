//! Kernel `.config` parsing, transport support and slot inference.
//!
//! A consumer of the kernel's build config: it tells which device transports
//! the kernel can drive and sizes the board's slot capacity accordingly. It
//! never presumes: a guest with no drivable transport is rejected rather than
//! shipped unusable.
use vstd::prelude::*;

use crate::bytes::find_bytes;
use crate::error::Arch;
use crate::text::{chars_match_at, chars_of, same_text};
use crate::unpack::gunzip;

verus! {

/// A parsed kernel build config (text Kconfig: `CONFIG_x=y/m` / `# … is not set`
/// lines). Held verbatim; symbols are matched on demand.
#[derive(Debug)]
pub struct KernelConfig {
    text: String,
}

impl View for KernelConfig {
    type V = Seq<char>;

    closed spec fn view(&self) -> Seq<char> {
        self.text@
    }
}

/// Why no slots can be declared.
#[derive(Debug, Clone, Copy, PartialEq, Eq, Structural)]
pub enum SlotError {
    /// The kernel supports neither virtio-mmio nor PCI.
    NoTransport,
    /// virtio-mmio slots are asked for, but the kernel lacks
    /// `CONFIG_VIRTIO_MMIO`.
    MmioUnsupported,
    /// The kernel has a transport only as a module.
    NoBuiltinTransport,
    /// PCI slots are asked for, but the kernel lacks PCI support.
    PciUnsupported,
}

/// How the guest kernel can drive the poweroff device placed in the base device
/// tree.
#[derive(Debug, Clone, Copy, PartialEq, Eq, Structural)]
pub enum PoweroffSupport {
    /// aarch64: PSCI `SYSTEM_OFF` (the `/psci` node).
    Psci,
    /// x86: ACPI S5, lowered from the `syscon-poweroff` node.
    Acpi,
    /// The kernel's own `syscon-poweroff` driver writes the register directly.
    SysconDriver,
    /// The kernel can drive none of the emitted poweroff devices.
    Unsupported,
}

/// Unicode `White_Space`.
pub open spec fn is_space(c: char) -> bool {
    let u = c as u32;
    ||| 0x9 <= u <= 0xd
    ||| u == 0x20
    ||| u == 0x85
    ||| u == 0xa0
    ||| u == 0x1680
    ||| 0x2000 <= u <= 0x200a
    ||| u == 0x2028
    ||| u == 0x2029
    ||| u == 0x202f
    ||| u == 0x205f
    ||| u == 0x3000
}

/// The line without its leading white space.
pub open spec fn trimmed(line: Seq<char>) -> Seq<char> {
    match crate::bytes::least(line.len() as int, |i: int| !is_space(line[i])) {
        Some(k) => line.skip(k),
        None => seq![],
    }
}

/// Whether the line assigns `value` to `sym`: behind its leading white space it
/// reads `sym=value`, and nothing more.
pub open spec fn assigns(line: Seq<char>, sym: Seq<char>, value: Seq<char>) -> bool {
    trimmed(line) == sym + seq!['='] + value
}

/// Whether a line of the text begins at `a` and ends, without its terminator, at
/// `e`.
pub open spec fn is_line(text: Seq<char>, a: int, e: int) -> bool {
    &&& 0 <= a < text.len()
    &&& a == 0 || text[a - 1] == '\n'
    &&& a <= e <= text.len()
    &&& e == text.len() || text[e] == '\n'
    &&& forall|k: int| a <= k < e ==> #[trigger] text[k] != '\n'
}

/// The content of a line: a carriage return before the newline belongs to the
/// terminator.
pub open spec fn line_content(text: Seq<char>, a: int, e: int) -> Seq<char> {
    if e < text.len() && a < e && text[e - 1] == '\r' {
        text.subrange(a, e - 1)
    } else {
        text.subrange(a, e)
    }
}

/// Whether some line of the config assigns `value` to `sym`.
pub open spec fn config_assigns(text: Seq<char>, sym: Seq<char>, value: Seq<char>) -> bool {
    exists|a: int, e: int| #[trigger]
        is_line(text, a, e) && assigns(line_content(text, a, e), sym, value)
}

/// Whether the config sets `sym` to `y` or `m`.
pub open spec fn sets(text: Seq<char>, sym: Seq<char>) -> bool {
    config_assigns(text, sym, seq!['y']) || config_assigns(text, sym, seq!['m'])
}

/// Whether the config sets `sym` to `y`.
pub open spec fn builds_in(text: Seq<char>, sym: Seq<char>) -> bool {
    config_assigns(text, sym, seq!['y'])
}

/// Whether the kernel can drive virtio-mmio at all.
pub open spec fn drives_mmio(text: Seq<char>) -> bool {
    sets(text, "CONFIG_VIRTIO_MMIO"@)
}

/// Whether virtio-mmio is built into the kernel.
pub open spec fn has_mmio(text: Seq<char>) -> bool {
    builds_in(text, "CONFIG_VIRTIO_MMIO"@)
}

/// Whether the kernel can drive virtio over PCI at all.
pub open spec fn drives_pci(text: Seq<char>, arch: Arch) -> bool {
    &&& sets(text, "CONFIG_PCI"@)
    &&& sets(text, "CONFIG_VIRTIO_PCI"@)
    &&& arch == Arch::Aarch64 ==> sets(text, "CONFIG_PCI_HOST_GENERIC"@)
}

/// Whether every piece of virtio over PCI is built into the kernel.
pub open spec fn has_pci(text: Seq<char>, arch: Arch) -> bool {
    &&& builds_in(text, "CONFIG_PCI"@)
    &&& builds_in(text, "CONFIG_VIRTIO_PCI"@)
    &&& arch == Arch::Aarch64 ==> builds_in(text, "CONFIG_PCI_HOST_GENERIC"@)
}

/// The slots `(mmio, pci)` of a board: those asked for, where any are, as far as
/// the kernel can drive them; else sixteen, over the transports built in.
pub open spec fn slots_of(
    text: Seq<char>,
    arch: Arch,
    mmio: Option<u32>,
    pci: Option<u32>,
) -> Result<(u32, u32), SlotError> {
    if !drives_mmio(text) && !drives_pci(text, arch) {
        Err(SlotError::NoTransport)
    } else if mmio is None && pci is None {
        if has_mmio(text) && has_pci(text, arch) {
            Ok((8, 8))
        } else if has_mmio(text) {
            Ok((16, 0))
        } else if has_pci(text, arch) {
            Ok((0, 16))
        } else {
            Err(SlotError::NoBuiltinTransport)
        }
    } else {
        let m = match mmio {
            Some(n) => n,
            None => 0u32,
        };
        let p = match pci {
            Some(n) => n,
            None => 0u32,
        };
        if m > 0 && !drives_mmio(text) {
            Err(SlotError::MmioUnsupported)
        } else if p > 0 && !drives_pci(text, arch) {
            Err(SlotError::PciUnsupported)
        } else {
            Ok((m, p))
        }
    }
}

/// What is built in can be driven.
pub proof fn builtin_is_drivable(text: Seq<char>, sym: Seq<char>, arch: Arch)
    ensures
        builds_in(text, sym) ==> sets(text, sym),
        has_mmio(text) ==> drives_mmio(text),
        has_pci(text, arch) ==> drives_pci(text, arch),
{
}

/// A comment line, such as `# CONFIG_x is not set`, assigns nothing to a symbol.
pub proof fn comment_lines_assign_nothing(line: Seq<char>, sym: Seq<char>, value: Seq<char>)
    requires
        trimmed(line).len() > 0,
        trimmed(line)[0] == '#',
        sym.len() > 0,
        sym[0] != '#',
    ensures
        !assigns(line, sym, value),
{
    assert((sym + seq!['='] + value)[0] == sym[0]);
}

/// Slots are declared only for transports that the kernel can drive, and on a
/// default board only for those that are built in.
pub proof fn slots_only_where_drivable(
    text: Seq<char>,
    arch: Arch,
    mmio: Option<u32>,
    pci: Option<u32>,
)
    requires
        slots_of(text, arch, mmio, pci) is Ok,
    ensures
        slots_of(text, arch, mmio, pci)->Ok_0.0 > 0 ==> drives_mmio(text),
        slots_of(text, arch, mmio, pci)->Ok_0.1 > 0 ==> drives_pci(text, arch),
        mmio is None && pci is None ==> {
            &&& slots_of(text, arch, mmio, pci)->Ok_0.0 > 0 <==> has_mmio(text)
            &&& slots_of(text, arch, mmio, pci)->Ok_0.1 > 0 <==> has_pci(text, arch)
        },
{
}

/// Slots that are asked for are declared exactly, one that is not asked for is
/// none, and they are refused only where the kernel cannot drive them.
pub proof fn explicit_slots_are_exact(
    text: Seq<char>,
    arch: Arch,
    mmio: Option<u32>,
    pci: Option<u32>,
)
    requires
        mmio is Some || pci is Some,
        drives_mmio(text) || drives_pci(text, arch),
    ensures
        ({
            let m = if mmio is Some {
                mmio->0
            } else {
                0
            };
            let p = if pci is Some {
                pci->0
            } else {
                0
            };
            slots_of(text, arch, mmio, pci) == Ok::<(u32, u32), SlotError>((m, p)) <==> (m > 0
                ==> drives_mmio(text)) && (p > 0 ==> drives_pci(text, arch))
        }),
{
}

/// A default board has sixteen slots in all.
pub proof fn default_board_has_sixteen_slots(text: Seq<char>, arch: Arch)
    requires
        slots_of(text, arch, None, None) is Ok,
    ensures
        slots_of(text, arch, None, None)->Ok_0.0 + slots_of(text, arch, None, None)->Ok_0.1 == 16,
{
}

/// A kernel that can drive neither transport is rejected, whatever is asked for,
/// and no other kernel is rejected for that.
pub proof fn no_transport_iff_neither(
    text: Seq<char>,
    arch: Arch,
    mmio: Option<u32>,
    pci: Option<u32>,
)
    ensures
        slots_of(text, arch, mmio, pci) == Err::<(u32, u32), SlotError>(SlotError::NoTransport)
            <==> !drives_mmio(text) && !drives_pci(text, arch),
{
}

/// Whether a character is white space.
fn space(c: char) -> (r: bool)
    ensures
        r == is_space(c),
{
    let u: u32 = c as u32;
    (0x9 <= u && u <= 0xd) || u == 0x20 || u == 0x85 || u == 0xa0 || u == 0x1680 || (0x2000 <= u
        && u <= 0x200a) || u == 0x2028 || u == 0x2029 || u == 0x202f || u == 0x205f || u == 0x3000
}

/// Whether the characters from `a` to `b` assign `value` to `sym`.
fn line_assigns(text: &[char], a: usize, b: usize, sym: &[char], value: char) -> (r: bool)
    requires
        a <= b <= text@.len(),
    ensures
        r == assigns(text@.subrange(a as int, b as int), sym@, seq![value]),
{
    let ghost line = text@.subrange(a as int, b as int);
    let ghost solid = |i: int| !is_space(line[i]);
    let ghost wanted = sym@ + seq!['='] + seq![value];
    let mut k: usize = a;
    while k < b && space(text[k])
        invariant
            a <= k <= b,
            b <= text@.len(),
            line == text@.subrange(a as int, b as int),
            solid == (|i: int| !is_space(line[i])),
            forall|j: int| 0 <= j < k - a ==> !#[trigger] solid(j),
        decreases b - k,
    {
        assert(line[k - a] == text@[k as int]);
        k = k + 1;
    }
    proof {
        if k < b {
            assert(line[k - a] == text@[k as int]);
            crate::bytes::lemma_least_is(line.len() as int, solid, k - a);
            assert(trimmed(line) =~= text@.subrange(k as int, b as int));
        } else {
            crate::bytes::lemma_least_none(line.len() as int, solid);
            assert(trimmed(line) =~= text@.subrange(k as int, b as int));
        }
    }
    let ghost rest = text@.subrange(k as int, b as int);
    if b - k < 2 || b - k - 2 != sym.len() {
        assert(rest.len() != wanted.len());
        return false;
    }
    if !chars_match_at(text, sym, k) {
        proof {
            if rest == wanted {
                assert(text@.skip(k as int).take(sym@.len() as int) =~= wanted.take(
                    sym@.len() as int,
                ));
                assert(wanted.take(sym@.len() as int) =~= sym@);
            }
        }
        return false;
    }
    let r: bool = text[b - 2] == '=' && text[b - 1] == value;
    proof {
        let n = sym@.len() as int;
        assert(rest[n] == text@[b - 2] && rest[n + 1] == text@[b - 1]);
        assert(wanted[n] == '=' && wanted[n + 1] == value);
        if r {
            assert forall|i: int| 0 <= i < rest.len() implies rest[i] == wanted[i] by {
                if i < n {
                    assert(text@.skip(k as int).take(n)[i] == sym@[i]);
                }
            }
            assert(rest =~= wanted);
        }
    }
    r
}

/// Whether some line of the text assigns `value` to `sym`.
fn text_assigns(text: &[char], sym: &[char], value: char) -> (r: bool)
    ensures
        r == config_assigns(text@, sym@, seq![value]),
{
    let n: usize = text.len();
    let mut a: usize = 0;
    while a < n
        invariant
            n == text@.len(),
            a <= n + 1,
            a == 0 || a > n || text@[a - 1] == '\n',
            forall|x: int, e: int|
                x < a && #[trigger] is_line(text@, x, e) ==> !assigns(
                    line_content(text@, x, e),
                    sym@,
                    seq![value],
                ),
        decreases n + 1 - a,
    {
        let mut e: usize = a;
        while e < n && text[e] != '\n'
            invariant
                n == text@.len(),
                a <= e <= n,
                forall|k: int| a <= k < e ==> #[trigger] text@[k] != '\n',
            decreases n - e,
        {
            e = e + 1;
        }
        assert(is_line(text@, a as int, e as int));
        let b: usize = if e < n && a < e && text[e - 1] == '\r' {
            e - 1
        } else {
            e
        };
        if line_assigns(text, a, b, sym, value) {
            return true;
        }
        proof {
            assert forall|x: int, f: int|
                x < e + 1 && #[trigger] is_line(text@, x, f) implies !assigns(
                line_content(text@, x, f),
                sym@,
                seq![value],
            ) by {
                if x == a {
                    if f < e {
                        assert(text@[f] != '\n');
                    } else if e < f {
                        assert(text@[e as int] != '\n');
                    }
                } else if x > a {
                    assert(text@[x - 1] != '\n');
                }
            }
        }
        if e == n {
            return false;
        }
        a = e + 1;
    }
    false
}

impl KernelConfig {
    /// Holds the text of a build config.
    pub fn parse(text: String) -> (r: Self)
        ensures
            r@ == text@,
    {
        Self { text }
    }

    /// Whether some line assigns `value` to `sym`.
    fn assigned(&self, sym: &str, value: char) -> (r: bool)
        ensures
            r == config_assigns(self@, sym@, seq![value]),
    {
        let text: Vec<char> = chars_of(self.text.as_str());
        let sym: Vec<char> = chars_of(sym);
        text_assigns(text.as_slice(), sym.as_slice(), value)
    }

    /// True iff `CONFIG_<sym>` is set to `y` or `m` (built-in or module).
    pub fn is_set(&self, sym: &str) -> (r: bool)
        ensures
            r == sets(self@, sym@),
    {
        self.assigned(sym, 'y') || self.assigned(sym, 'm')
    }

    /// True iff `CONFIG_<sym>=y` (built into the kernel, excludes `=m`).
    pub fn is_builtin(&self, sym: &str) -> (r: bool)
        ensures
            r == builds_in(self@, sym@),
    {
        self.assigned(sym, 'y')
    }

    /// The kernel can drive virtio-mmio at all (built-in *or* module).
    pub fn supports_virtio_mmio(&self) -> (r: bool)
        ensures
            r == drives_mmio(self@),
    {
        self.is_set("CONFIG_VIRTIO_MMIO")
    }

    /// virtio-mmio is built into the kernel (`=y`).
    pub fn builtin_virtio_mmio(&self) -> (r: bool)
        ensures
            r == has_mmio(self@),
    {
        self.is_builtin("CONFIG_VIRTIO_MMIO")
    }

    /// The kernel can drive virtio over PCI at all (built-in *or* module):
    /// `CONFIG_PCI` + `CONFIG_VIRTIO_PCI` (and, on aarch64, the ECAM host driver
    /// `CONFIG_PCI_HOST_GENERIC`).
    pub fn supports_pci(&self, arch: Arch) -> (r: bool)
        ensures
            r == drives_pci(self@, arch),
    {
        self.is_set("CONFIG_PCI") && self.is_set("CONFIG_VIRTIO_PCI") && (arch != Arch::Aarch64
            || self.is_set("CONFIG_PCI_HOST_GENERIC"))
    }

    /// virtio-over-PCI is usable from the first instruction: every piece is
    /// built in (`=y`), not a module.
    pub fn builtin_pci(&self, arch: Arch) -> (r: bool)
        ensures
            r == has_pci(self@, arch),
    {
        self.is_builtin("CONFIG_PCI") && self.is_builtin("CONFIG_VIRTIO_PCI") && (arch
            != Arch::Aarch64 || self.is_builtin("CONFIG_PCI_HOST_GENERIC"))
    }

    /// Detect how the guest will drive the poweroff device of the base device
    /// tree. On x86 ACPI is preferred when the kernel has both mechanisms.
    pub fn poweroff_support(&self, arch: Arch) -> (r: PoweroffSupport)
        ensures
            r == match arch {
                Arch::Aarch64 => if sets(self@, "CONFIG_ARM_PSCI_FW"@) || sets(
                    self@,
                    "CONFIG_ARM_PSCI"@,
                ) {
                    PoweroffSupport::Psci
                } else {
                    PoweroffSupport::Unsupported
                },
                Arch::X86_64 => if sets(self@, "CONFIG_ACPI"@) {
                    PoweroffSupport::Acpi
                } else if sets(self@, "CONFIG_POWER_RESET_SYSCON_POWEROFF"@) {
                    PoweroffSupport::SysconDriver
                } else {
                    PoweroffSupport::Unsupported
                },
            },
            r == poweroff_of(self@, arch),
    {
        match arch {
            Arch::Aarch64 => {
                if self.is_set("CONFIG_ARM_PSCI_FW") || self.is_set("CONFIG_ARM_PSCI") {
                    PoweroffSupport::Psci
                } else {
                    PoweroffSupport::Unsupported
                }
            },
            Arch::X86_64 => {
                if self.is_set("CONFIG_ACPI") {
                    PoweroffSupport::Acpi
                } else if self.is_set("CONFIG_POWER_RESET_SYSCON_POWEROFF") {
                    PoweroffSupport::SysconDriver
                } else {
                    PoweroffSupport::Unsupported
                }
            },
        }
    }

    /// Resolve `(mmio_slots, pci_slots)`:
    ///
    /// - **Neither given**: 16 total, split across the transports the kernel can
    ///   use *without loading a module* (8/8 if both, else all 16 to the single
    ///   one). A transport built only as a module has no attach surface until the
    ///   guest loads it; a kernel whose only transports are modular has no
    ///   default board.
    /// - **Either given**: exactly what was asked (a missing one is `0`), failing
    ///   if asked to declare a transport the kernel can't drive.
    ///
    /// Either way, fail if the kernel supports neither transport at all.
    pub fn infer_slots(
        &self,
        arch: Arch,
        mmio_override: Option<u32>,
        pci_override: Option<u32>,
    ) -> (r: Result<(u32, u32), SlotError>)
        ensures
            r == slots_of(self@, arch, mmio_override, pci_override),
    {
        let mmio_drivable: bool = self.supports_virtio_mmio();
        let mmio_builtin: bool = self.builtin_virtio_mmio();
        let pci_drivable: bool = self.supports_pci(arch);
        let pci_builtin: bool = self.builtin_pci(arch);
        if !mmio_drivable && !pci_drivable {
            return Err(SlotError::NoTransport);
        }
        match (mmio_override, pci_override) {
            (None, None) => match (mmio_builtin, pci_builtin) {
                (true, true) => Ok((8, 8)),
                (true, false) => Ok((16, 0)),
                (false, true) => Ok((0, 16)),
                (false, false) => Err(SlotError::NoBuiltinTransport),
            },
            (m, p) => {
                let mmio: u32 = match m {
                    Some(n) => n,
                    None => 0,
                };
                let pci: u32 = match p {
                    Some(n) => n,
                    None => 0,
                };
                if mmio > 0 && !mmio_drivable {
                    return Err(SlotError::MmioUnsupported);
                }
                if pci > 0 && !pci_drivable {
                    return Err(SlotError::PciUnsupported);
                }
                Ok((mmio, pci))
            },
        }
    }
}

/// The lowest ISA level that the kernel can run on, as its config marks it.
pub open spec fn floor_of(text: Seq<char>, arch: Arch) -> Seq<char> {
    match arch {
        Arch::X86_64 => if sets(text, "CONFIG_X86_64_V4"@) {
            "x86-64-v4"@
        } else if sets(text, "CONFIG_X86_64_V3"@) {
            "x86-64-v3"@
        } else if sets(text, "CONFIG_X86_64_V2"@) {
            "x86-64-v2"@
        } else {
            "x86-64-v1"@
        },
        Arch::Aarch64 => "armv8.0-a"@,
    }
}

/// The ISA levels of an arch, ascending.
pub open spec fn levels_of(arch: Arch) -> Seq<Seq<char>> {
    match arch {
        Arch::X86_64 => seq!["x86-64-v1"@, "x86-64-v2"@, "x86-64-v3"@, "x86-64-v4"@],
        Arch::Aarch64 => seq![
            "armv8.0-a"@,
            "armv8.1-a"@,
            "armv8.2-a"@,
            "armv8.3-a"@,
            "armv8.4-a"@,
            "armv8.5-a"@,
            "armv8.6-a"@,
        ],
    }
}

/// Whether a profile is the level at an index.
pub open spec fn is_level(profile: Seq<char>, arch: Arch) -> spec_fn(int) -> bool {
    |i: int| levels_of(arch)[i] == profile
}

/// Where a profile stands among the levels of an arch.
pub open spec fn rank_of(profile: Seq<char>, arch: Arch) -> Option<int> {
    crate::bytes::least(levels_of(arch).len() as int, is_level(profile, arch))
}

/// The floor where both are levels of the arch and it is the higher, else the
/// chosen profile.
pub open spec fn raised(chosen: Seq<char>, floor: Seq<char>, arch: Arch) -> Seq<char> {
    match (rank_of(chosen, arch), rank_of(floor, arch)) {
        (Some(c), Some(f)) => if f > c {
            floor
        } else {
            chosen
        },
        _ => chosen,
    }
}

/// The characters of each text.
pub open spec fn texts(s: Seq<&str>) -> Seq<Seq<char>> {
    s.map_values(|t: &str| t@)
}

/// The ordered ISA levels for an arch (ascending), used to compare profiles.
pub fn isa_levels(arch: Arch) -> (r: &'static [&'static str])
    ensures
        texts(r@) == levels_of(arch),
{
    let r: &'static [&'static str] = match arch {
        Arch::X86_64 => &["x86-64-v1", "x86-64-v2", "x86-64-v3", "x86-64-v4"],
        Arch::Aarch64 => &[
            "armv8.0-a",
            "armv8.1-a",
            "armv8.2-a",
            "armv8.3-a",
            "armv8.4-a",
            "armv8.5-a",
            "armv8.6-a",
        ],
    };
    assert(texts(r@) =~= levels_of(arch));
    r
}

/// Where a profile stands among the levels.
fn rank(levels: &[&str], profile: &str, arch: Arch) -> (r: Option<usize>)
    requires
        texts(levels@) == levels_of(arch),
    ensures
        match r {
            Some(i) => rank_of(profile@, arch) == Some(i as int),
            None => rank_of(profile@, arch) is None,
        },
{
    let ghost is_profile = is_level(profile@, arch);
    let chars: Vec<char> = chars_of(profile);
    let mut i: usize = 0;
    while i < levels.len()
        invariant
            i <= levels@.len(),
            chars@ == profile@,
            texts(levels@) == levels_of(arch),
            is_profile == is_level(profile@, arch),
            forall|j: int| 0 <= j < i ==> !#[trigger] is_profile(j),
        decreases levels@.len() - i,
    {
        assert(texts(levels@)[i as int] == levels@[i as int]@);
        if same_text(chars.as_slice(), levels[i]) {
            proof {
                crate::bytes::lemma_least_is(levels@.len() as int, is_profile, i as int);
            }
            return Some(i);
        }
        i = i + 1;
    }
    proof {
        crate::bytes::lemma_least_none(levels@.len() as int, is_profile);
    }
    None
}

/// Raise `chosen` up to `floor` if the kernel's build floor is higher: the
/// emitted profile must not sit below what the kernel requires. A profile that
/// is no level of the arch is left exactly as set.
pub fn raise_to_floor(chosen: &str, floor: &str, arch: Arch) -> (r: String)
    ensures
        r@ == raised(chosen@, floor@, arch),
{
    let levels: &'static [&'static str] = isa_levels(arch);
    match (rank(levels, chosen, arch), rank(levels, floor, arch)) {
        (Some(c), Some(f)) => {
            if f > c {
                floor.to_string()
            } else {
                chosen.to_string()
            }
        },
        _ => chosen.to_string(),
    }
}

/// A profile has a rank exactly where it is one of the levels, and stands there.
pub proof fn lemma_rank(profile: Seq<char>, arch: Arch)
    ensures
        match rank_of(profile, arch) {
            Some(i) => 0 <= i < levels_of(arch).len() && levels_of(arch)[i] == profile,
            None => !levels_of(arch).contains(profile),
        },
{
    let is_profile = is_level(profile, arch);
    let n = levels_of(arch).len() as int;
    crate::bytes::lemma_least(n, is_profile);
    if rank_of(profile, arch) is None && levels_of(arch).contains(profile) {
        let k = choose|k: int| 0 <= k < levels_of(arch).len() && levels_of(arch)[k] == profile;
        assert(is_profile(k));
    }
}

/// Raising a level never leaves it below the floor, and never lowers it.
pub proof fn raised_reaches_floor(chosen: Seq<char>, floor: Seq<char>, arch: Arch)
    requires
        rank_of(chosen, arch) is Some,
        rank_of(floor, arch) is Some,
    ensures
        rank_of(raised(chosen, floor, arch), arch) is Some,
        rank_of(raised(chosen, floor, arch), arch)->0 >= rank_of(floor, arch)->0,
        rank_of(raised(chosen, floor, arch), arch)->0 >= rank_of(chosen, arch)->0,
{
}

/// Raising twice is raising once.
pub proof fn raising_is_idempotent(chosen: Seq<char>, floor: Seq<char>, arch: Arch)
    ensures
        raised(raised(chosen, floor, arch), floor, arch) == raised(chosen, floor, arch),
{
}

/// A profile that is no level of the arch is left as it is.
pub proof fn unknown_profile_is_kept(chosen: Seq<char>, floor: Seq<char>, arch: Arch)
    requires
        !levels_of(arch).contains(chosen),
    ensures
        raised(chosen, floor, arch) == chosen,
{
    lemma_rank(chosen, arch);
}

/// The floor of every kernel is one of the levels of its arch.
pub proof fn floor_is_a_level(text: Seq<char>, arch: Arch)
    ensures
        levels_of(arch).contains(floor_of(text, arch)),
        rank_of(floor_of(text, arch), arch) is Some,
{
    let at = match arch {
        Arch::X86_64 => if sets(text, "CONFIG_X86_64_V4"@) {
            3int
        } else if sets(text, "CONFIG_X86_64_V3"@) {
            2int
        } else if sets(text, "CONFIG_X86_64_V2"@) {
            1int
        } else {
            0int
        },
        Arch::Aarch64 => 0int,
    };
    assert(levels_of(arch)[at] == floor_of(text, arch));
    lemma_rank(floor_of(text, arch), arch);
}

/// "IKCFG_ST".
pub open spec fn begin_marker() -> Seq<u8> {
    seq![0x49u8, 0x4bu8, 0x43u8, 0x46u8, 0x47u8, 0x5fu8, 0x53u8, 0x54u8]
}

/// "IKCFG_ED".
pub open spec fn end_marker() -> Seq<u8> {
    seq![0x49u8, 0x4bu8, 0x43u8, 0x46u8, 0x47u8, 0x5fu8, 0x45u8, 0x44u8]
}

/// "IKCFG_ST".
pub const BEGIN_MARKER: [u8; 8] = [0x49, 0x4b, 0x43, 0x46, 0x47, 0x5f, 0x53, 0x54];

/// "IKCFG_ED".
pub const END_MARKER: [u8; 8] = [0x49, 0x4b, 0x43, 0x46, 0x47, 0x5f, 0x45, 0x44];

/// What stands between the first `begin` marker and the first `end` marker behind
/// it.
pub open spec fn between(kernel: Seq<u8>, begin: Seq<u8>, end: Seq<u8>) -> Option<Seq<u8>> {
    match crate::bytes::least(
        kernel.len() as int,
        |i: int| crate::bytes::occurs_at(kernel, begin, i),
    ) {
        None => None,
        Some(i) => match crate::bytes::least(
            kernel.len() as int,
            |j: int| i + begin.len() <= j && crate::bytes::occurs_at(kernel, end, j),
        ) {
            None => None,
            Some(j) => Some(kernel.subrange(i + begin.len(), j)),
        },
    }
}

/// The config blob of a kernel: what stands between the markers.
pub open spec fn config_blob(kernel: Seq<u8>) -> Option<Seq<u8>> {
    between(kernel, begin_marker(), end_marker())
}

/// The config text that a decompressed blob holds: UTF-8, or none.
pub open spec fn blob_text(decoded: Result<Seq<u8>, Seq<char>>) -> Option<Seq<char>> {
    match decoded {
        Ok(out) => if vstd::utf8::valid_utf8(out) {
            Some(vstd::utf8::decode_utf8(out))
        } else {
            None
        },
        Err(_) => None,
    }
}

/// The config embedded in a kernel, if it carries one.
pub open spec fn embedded_config(kernel: Seq<u8>) -> Option<Seq<char>> {
    match config_blob(kernel) {
        Some(blob) => blob_text(crate::unpack::gunzipped(blob)),
        None => None,
    }
}

/// A blob between the markers is found wherever it stands in a kernel, if no
/// begin marker stands before it and no end marker within it.
pub proof fn embedded_blob_is_found(before: Seq<u8>, blob: Seq<u8>, after: Seq<u8>)
    requires
        forall|i: int|
            0 <= i < before.len() ==> !#[trigger] crate::bytes::occurs_at(
                before + begin_marker() + blob + end_marker() + after,
                begin_marker(),
                i,
            ),
        forall|j: int|
            0 <= j < blob.len() ==> !#[trigger] crate::bytes::occurs_at(
                blob + end_marker() + after,
                end_marker(),
                j,
            ),
    ensures
        config_blob(before + begin_marker() + blob + end_marker() + after) == Some(blob),
{
    lemma_between(before, begin_marker(), blob, end_marker(), after);
}

/// What stands between two markers is found.
proof fn lemma_between(
    before: Seq<u8>,
    begin: Seq<u8>,
    blob: Seq<u8>,
    end: Seq<u8>,
    after: Seq<u8>,
)
    requires
        begin.len() > 0,
        end.len() > 0,
        forall|i: int|
            0 <= i < before.len() ==> !#[trigger] crate::bytes::occurs_at(
                before + begin + blob + end + after,
                begin,
                i,
            ),
        forall|j: int|
            0 <= j < blob.len() ==> !#[trigger] crate::bytes::occurs_at(blob + end + after, end, j),
    ensures
        between(before + begin + blob + end + after, begin, end) == Some(blob),
{
    let kernel = before + begin + blob + end + after;
    let tail = blob + end + after;
    let i = before.len() as int;
    let start = i + begin.len();
    let j = start + blob.len();
    let begins = |k: int| crate::bytes::occurs_at(kernel, begin, k);
    assert(kernel.subrange(i, start) =~= begin);
    assert(begins(i));
    crate::bytes::lemma_least_is(kernel.len() as int, begins, i);
    let ends = |k: int| i + begin.len() <= k && crate::bytes::occurs_at(kernel, end, k);
    assert(kernel.subrange(j, j + end.len()) =~= end);
    assert(ends(j));
    assert forall|k: int| 0 <= k < j implies !#[trigger] ends(k) by {
        if ends(k) {
            assert(kernel.subrange(k, k + end.len()) =~= tail.subrange(
                k - start,
                k - start + end.len(),
            ));
            assert(crate::bytes::occurs_at(tail, end, k - start));
        }
    }
    crate::bytes::lemma_least_is(kernel.len() as int, ends, j);
    assert(kernel.subrange(start, j) =~= blob);
}

/// Calls `String::from_utf8`. The contract claims that it accepts exactly the
/// valid UTF-8 and decodes it.
#[verifier::external_body]
fn utf8_text(bytes: Vec<u8>) -> (r: Option<String>)
    ensures
        match r {
            Some(s) => vstd::utf8::valid_utf8(bytes@) && s@ == vstd::utf8::decode_utf8(bytes@),
            None => !vstd::utf8::valid_utf8(bytes@),
        },
{
    String::from_utf8(bytes).ok()
}

/// The characters of a config that may be absent.
pub open spec fn config_view(config: Option<KernelConfig>) -> Option<Seq<char>> {
    match config {
        Some(c) => Some(c@),
        None => None,
    }
}

/// The bytes of a decompressed blob, or the text of the error.
pub open spec fn decoded_view(decoded: Result<Vec<u8>, String>) -> Result<Seq<u8>, Seq<char>> {
    match decoded {
        Ok(out) => Ok(out@),
        Err(text) => Err(text@),
    }
}

/// Locates the config blob of a kernel: where it begins and ends.
pub fn find_config_blob(kernel: &[u8]) -> (r: Option<(usize, usize)>)
    ensures
        match r {
            Some((start, end)) => start <= end <= kernel@.len() && config_blob(kernel@) == Some(
                kernel@.subrange(start as int, end as int),
            ),
            None => config_blob(kernel@) is None,
        },
{
    let ghost n = kernel@.len() as int;
    let ghost begins = |k: int| crate::bytes::occurs_at(kernel@, begin_marker(), k);
    let begin: [u8; 8] = BEGIN_MARKER;
    let end: [u8; 8] = END_MARKER;
    assert(begin@ =~= begin_marker());
    assert(end@ =~= end_marker());
    let i: usize = match find_bytes(kernel, begin.as_slice(), 0) {
        Some(i) => i,
        None => {
            proof {
                assert forall|k: int| 0 <= k < n implies !#[trigger] begins(k) by {}
                crate::bytes::lemma_least_none(n, begins);
            }
            return None;
        },
    };
    proof {
        assert(begins(i as int));
        crate::bytes::lemma_least_is(n, begins, i as int);
    }
    let len: usize = kernel.len();
    assert(i + 8 <= len);
    let ghost ends = |k: int|
        i + begin_marker().len() <= k && crate::bytes::occurs_at(kernel@, end_marker(), k);
    match find_bytes(kernel, end.as_slice(), i + 8) {
        Some(j) => {
            proof {
                assert(ends(j as int));
                crate::bytes::lemma_least_is(n, ends, j as int);
            }
            Some((i + 8, j))
        },
        None => {
            proof {
                crate::bytes::lemma_least_none(n, ends);
            }
            None
        },
    }
}

/// Takes the config out of a decompressed blob.
pub fn config_of_blob(decoded: Result<Vec<u8>, String>) -> (r: Option<KernelConfig>)
    ensures
        config_view(r) == blob_text(decoded_view(decoded)),
{
    match decoded {
        Ok(out) => match utf8_text(out) {
            Some(text) => Some(KernelConfig::parse(text)),
            None => None,
        },
        Err(_) => None,
    }
}

impl KernelConfig {
    /// Extract the kernel's embedded build config (`CONFIG_IKCONFIG`): a gzip
    /// blob bracketed by `IKCFG_ST`/`IKCFG_ED` in the (decompressed) kernel
    /// image. Returns `None` if the kernel carries no embedded config.
    pub fn from_ikconfig(kernel: &[u8]) -> (r: Option<Self>)
        ensures
            config_view(r) == embedded_config(kernel@),
    {
        match find_config_blob(kernel) {
            Some((start, end)) => config_of_blob(gunzip(&kernel[start..end])),
            None => None,
        }
    }

    /// The kernel's ISA build floor: the lowest profile the kernel can run on.
    /// For stock kernels that is the architecture baseline; a distro that marks a
    /// higher level (`CONFIG_X86_64_V{2,3,4}`) raises it.
    pub fn isa_floor(&self, arch: Arch) -> (r: &'static str)
        ensures
            r@ == floor_of(self@, arch),
    {
        match arch {
            Arch::X86_64 => {
                if self.is_set("CONFIG_X86_64_V4") {
                    "x86-64-v4"
                } else if self.is_set("CONFIG_X86_64_V3") {
                    "x86-64-v3"
                } else if self.is_set("CONFIG_X86_64_V2") {
                    "x86-64-v2"
                } else {
                    "x86-64-v1"
                }
            },
            Arch::Aarch64 => "armv8.0-a",
        }
    }
}

/// The white space characters: the ASCII ones and those of Unicode.
pub proof fn white_space_is_these(c: char)
    ensures
        c as u32 <= 0x7f ==> (is_space(c) <==> c == ' ' || c == '\t' || c == '\n' || c == '\r' || c
            as u32 == 0xb || c as u32 == 0xc),
        c as u32 > 0x7f ==> (is_space(c) <==> c == '\u{85}' || c == '\u{a0}' || c == '\u{1680}' || c
            == '\u{2000}' || c == '\u{2001}' || c == '\u{2002}' || c == '\u{2003}' || c
            == '\u{2004}' || c == '\u{2005}' || c == '\u{2006}' || c == '\u{2007}' || c
            == '\u{2008}' || c == '\u{2009}' || c == '\u{200a}' || c == '\u{2028}' || c
            == '\u{2029}' || c == '\u{202f}' || c == '\u{205f}' || c == '\u{3000}'),
{
}

/// Whether a line of the text begins at `a`, has nothing but white space up to `b`, and
/// reads `wanted` from there to its end: that of the text, a newline, or a carriage
/// return and a newline.
pub open spec fn line_reads(text: Seq<char>, a: int, b: int, wanted: Seq<char>) -> bool {
    let e = b + wanted.len();
    &&& 0 <= a <= b
    &&& e <= text.len()
    &&& a == 0 || text[a - 1] == '\n'
    &&& forall|k: int| a <= k < b ==> is_space(#[trigger] text[k]) && text[k] != '\n'
    &&& text.subrange(b, e) == wanted
    &&& e == text.len() || text[e] == '\n' || (e + 1 < text.len() && text[e] == '\r' && text[e + 1]
        == '\n')
}

/// A config assigns a value to a symbol exactly where one of its lines reads
/// `symbol=value`, behind white space at most, and nothing more.
pub proof fn assignment_is_a_line_of_its_own(text: Seq<char>, sym: Seq<char>, value: Seq<char>)
    requires
        sym.len() > 0 ==> !is_space(sym[0]),
        value.len() > 0,
        value.last() != '\r',
        !sym.contains('\n'),
        !value.contains('\n'),
    ensures
        config_assigns(text, sym, value) <==> exists|a: int, b: int| #[trigger]
            line_reads(text, a, b, sym + seq!['='] + value),
{
    let wanted = sym + seq!['='] + value;
    let n = wanted.len() as int;
    assert(wanted[0] == if sym.len() > 0 {
        sym[0]
    } else {
        '='
    });
    assert(wanted.last() == value.last());
    if config_assigns(text, sym, value) {
        let (a, e) = choose|a: int, e: int| #[trigger]
            is_line(text, a, e) && assigns(line_content(text, a, e), sym, value);
        let line = line_content(text, a, e);
        let solid = |i: int| !is_space(line[i]);
        crate::bytes::lemma_least(line.len() as int, solid);
        let k = crate::bytes::least(line.len() as int, solid)->0;
        let b = a + k;
        assert forall|i: int| a <= i < b implies is_space(#[trigger] text[i]) && text[i]
            != '\n' by {
            assert(!solid(i - a));
            assert(line[i - a] == text[i]);
        }
        assert(text.subrange(b, b + n) =~= line.skip(k));
        assert(line_reads(text, a, b, wanted));
    }
    if exists|a: int, b: int| #[trigger] line_reads(text, a, b, wanted) {
        let (a, b) = choose|a: int, b: int| #[trigger] line_reads(text, a, b, wanted);
        let f = b + n;
        let e = if f < text.len() && text[f] == '\r' {
            f + 1
        } else {
            f
        };
        assert forall|k: int| a <= k < e implies #[trigger] text[k] != '\n' by {
            if b <= k < f {
                let i = k - b;
                assert(text.subrange(b, f)[i] == text[k]);
                if i < sym.len() {
                    assert(wanted[i] == sym[i]);
                    assert(sym.contains(sym[i]));
                } else if i > sym.len() {
                    assert(wanted[i] == value[i - sym.len() - 1]);
                    assert(value.contains(value[i - sym.len() - 1]));
                }
            }
        }
        assert(is_line(text, a, e));
        let line = line_content(text, a, e);
        assert(text.subrange(b, f)[n - 1] == text[f - 1]);
        assert(text[f - 1] == value.last());
        assert(line =~= text.subrange(a, f));
        let solid = |i: int| !is_space(line[i]);
        assert forall|j: int| 0 <= j < b - a implies !#[trigger] solid(j) by {
            assert(line[j] == text[a + j]);
        }
        assert(line[b - a] == text.subrange(b, f)[0]);
        crate::bytes::lemma_least_is(line.len() as int, solid, b - a);
        assert(line.skip(b - a) =~= wanted);
        assert(assigns(line, sym, value));
    }
}

/// A symbol is set where it is assigned `y` or `m`, and built in where it is assigned
/// `y`.
pub proof fn set_is_built_in_or_module(text: Seq<char>, sym: Seq<char>)
    ensures
        sets(text, sym) <==> builds_in(text, sym) || config_assigns(text, sym, "m"@),
        builds_in(text, sym) <==> config_assigns(text, sym, "y"@),
{
    reveal_strlit("m");
    reveal_strlit("y");
    assert("m"@ =~= seq!['m']);
    assert("y"@ =~= seq!['y']);
}

/// The transports need their driver, and PCI the bus as well: on aarch64 also the driver
/// of its host bridge.
pub proof fn transports_need_their_drivers(text: Seq<char>)
    ensures
        drives_mmio(text) <==> sets(text, "CONFIG_VIRTIO_MMIO"@),
        has_mmio(text) <==> builds_in(text, "CONFIG_VIRTIO_MMIO"@),
        drives_pci(text, Arch::X86_64) <==> sets(text, "CONFIG_PCI"@) && sets(
            text,
            "CONFIG_VIRTIO_PCI"@,
        ),
        has_pci(text, Arch::X86_64) <==> builds_in(text, "CONFIG_PCI"@) && builds_in(
            text,
            "CONFIG_VIRTIO_PCI"@,
        ),
        drives_pci(text, Arch::Aarch64) <==> drives_pci(text, Arch::X86_64) && sets(
            text,
            "CONFIG_PCI_HOST_GENERIC"@,
        ),
        has_pci(text, Arch::Aarch64) <==> has_pci(text, Arch::X86_64) && builds_in(
            text,
            "CONFIG_PCI_HOST_GENERIC"@,
        ),
{
}

/// A default board splits its slots evenly over the transports that are built in, and a
/// kernel that could only load its transports has none.
pub proof fn default_slots_are_split_evenly(text: Seq<char>, arch: Arch)
    requires
        drives_mmio(text) || drives_pci(text, arch),
    ensures
        ({
            let slots = slots_of(text, arch, None, None);
            &&& has_mmio(text) || has_pci(text, arch) <==> slots is Ok
            &&& slots is Ok ==> slots->Ok_0.0 + slots->Ok_0.1 == 16
            &&& has_mmio(text) && has_pci(text, arch) ==> slots->Ok_0.0 == slots->Ok_0.1
            &&& has_mmio(text) && !has_pci(text, arch) ==> slots->Ok_0.1 == 0
            &&& !has_mmio(text) && has_pci(text, arch) ==> slots->Ok_0.0 == 0
            &&& slots is Err ==> slots->Err_0 == SlotError::NoBuiltinTransport
        }),
{
}

/// Slots that are asked for are refused for the transport that cannot be driven,
/// virtio-mmio before PCI.
pub proof fn undrivable_slots_are_refused(
    text: Seq<char>,
    arch: Arch,
    mmio: Option<u32>,
    pci: Option<u32>,
)
    requires
        mmio is Some || pci is Some,
        drives_mmio(text) || drives_pci(text, arch),
    ensures
        mmio is Some && mmio->0 > 0 && !drives_mmio(text) ==> slots_of(text, arch, mmio, pci)
            == Err::<(u32, u32), SlotError>(SlotError::MmioUnsupported),
        !(mmio is Some && mmio->0 > 0 && !drives_mmio(text)) && pci is Some && pci->0 > 0
            && !drives_pci(text, arch) ==> slots_of(text, arch, mmio, pci) == Err::<
            (u32, u32),
            SlotError,
        >(SlotError::PciUnsupported),
{
}

/// The ISA levels, from the baseline up.
pub proof fn levels_ascend()
    ensures
        levels_of(Arch::X86_64).len() == 4,
        levels_of(Arch::X86_64)[0] == "x86-64-v1"@,
        levels_of(Arch::X86_64)[1] == "x86-64-v2"@,
        levels_of(Arch::X86_64)[2] == "x86-64-v3"@,
        levels_of(Arch::X86_64)[3] == "x86-64-v4"@,
        levels_of(Arch::Aarch64).len() == 7,
        levels_of(Arch::Aarch64)[0] == "armv8.0-a"@,
        levels_of(Arch::Aarch64)[1] == "armv8.1-a"@,
        levels_of(Arch::Aarch64)[2] == "armv8.2-a"@,
        levels_of(Arch::Aarch64)[3] == "armv8.3-a"@,
        levels_of(Arch::Aarch64)[4] == "armv8.4-a"@,
        levels_of(Arch::Aarch64)[5] == "armv8.5-a"@,
        levels_of(Arch::Aarch64)[6] == "armv8.6-a"@,
{
}

/// The digit that tells the levels of an arch apart.
proof fn lemma_level_digits(arch: Arch, i: int)
    requires
        0 <= i < levels_of(arch).len(),
    ensures
        arch == Arch::X86_64 ==> levels_of(arch)[i].len() == 9 && levels_of(arch)[i][8] as int == 0x31
            + i,
        arch == Arch::Aarch64 ==> levels_of(arch)[i].len() == 9 && levels_of(arch)[i][6] as int
            == 0x30 + i,
{
    reveal_strlit("x86-64-v1");
    reveal_strlit("x86-64-v2");
    reveal_strlit("x86-64-v3");
    reveal_strlit("x86-64-v4");
    reveal_strlit("armv8.0-a");
    reveal_strlit("armv8.1-a");
    reveal_strlit("armv8.2-a");
    reveal_strlit("armv8.3-a");
    reveal_strlit("armv8.4-a");
    reveal_strlit("armv8.5-a");
    reveal_strlit("armv8.6-a");
    levels_ascend();
}

/// Raising one level to another gives the higher of the two, and neither is anything
/// else raised nor raised to.
pub proof fn raising_gives_the_higher_level(arch: Arch, i: int, j: int, other: Seq<char>)
    requires
        0 <= i < levels_of(arch).len(),
        0 <= j < levels_of(arch).len(),
        !levels_of(arch).contains(other),
    ensures
        raised(levels_of(arch)[i], levels_of(arch)[j], arch) == levels_of(arch)[if i >= j {
            i
        } else {
            j
        }],
        raised(other, levels_of(arch)[j], arch) == other,
        raised(levels_of(arch)[i], other, arch) == levels_of(arch)[i],
{
    lemma_rank(levels_of(arch)[i], arch);
    lemma_rank(levels_of(arch)[j], arch);
    lemma_rank(other, arch);
    assert(levels_of(arch).contains(levels_of(arch)[i]));
    assert(levels_of(arch).contains(levels_of(arch)[j]));
    lemma_level_digits(arch, i);
    lemma_level_digits(arch, j);
    lemma_level_digits(arch, rank_of(levels_of(arch)[i], arch)->0);
    lemma_level_digits(arch, rank_of(levels_of(arch)[j], arch)->0);
}

/// The floor of an x86-64 kernel is the highest level that its config marks, else the
/// baseline; that of an aarch64 kernel is the baseline.
pub proof fn floor_is_the_highest_marked_level(text: Seq<char>)
    ensures
        sets(text, "CONFIG_X86_64_V4"@) ==> floor_of(text, Arch::X86_64) == "x86-64-v4"@,
        sets(text, "CONFIG_X86_64_V3"@) && !sets(text, "CONFIG_X86_64_V4"@) ==> floor_of(
            text,
            Arch::X86_64,
        ) == "x86-64-v3"@,
        sets(text, "CONFIG_X86_64_V2"@) && !sets(text, "CONFIG_X86_64_V3"@) && !sets(
            text,
            "CONFIG_X86_64_V4"@,
        ) ==> floor_of(text, Arch::X86_64) == "x86-64-v2"@,
        !sets(text, "CONFIG_X86_64_V2"@) && !sets(text, "CONFIG_X86_64_V3"@) && !sets(
            text,
            "CONFIG_X86_64_V4"@,
        ) ==> floor_of(text, Arch::X86_64) == "x86-64-v1"@,
        floor_of(text, Arch::Aarch64) == "armv8.0-a"@,
{
}

/// The markers are `IKCFG_ST` and `IKCFG_ED`.
pub proof fn markers_have_these_letters()
    ensures
        begin_marker().len() == 8,
        end_marker().len() == 8,
        forall|k: int| 0 <= k < 6 ==> begin_marker()[k] == #[trigger] end_marker()[k],
        begin_marker()[0] as char == 'I',
        begin_marker()[1] as char == 'K',
        begin_marker()[2] as char == 'C',
        begin_marker()[3] as char == 'F',
        begin_marker()[4] as char == 'G',
        begin_marker()[5] as char == '_',
        begin_marker()[6] as char == 'S',
        begin_marker()[7] as char == 'T',
        end_marker()[6] as char == 'E',
        end_marker()[7] as char == 'D',
{
}

/// The config blob begins behind the first begin marker and ends before the first end
/// marker behind that; without either there is none.
pub proof fn blob_stands_between_first_markers(kernel: Seq<u8>)
    ensures
        match config_blob(kernel) {
            Some(blob) => exists|i: int, j: int|
                {
                    &&& #[trigger] crate::bytes::occurs_at(kernel, begin_marker(), i)
                    &&& #[trigger] crate::bytes::occurs_at(kernel, end_marker(), j)
                    &&& i + 8 <= j
                    &&& blob == kernel.subrange(i + 8, j)
                    &&& forall|k: int|
                        0 <= k < i ==> !#[trigger] crate::bytes::occurs_at(
                            kernel,
                            begin_marker(),
                            k,
                        )
                    &&& forall|k: int|
                        i + 8 <= k < j ==> !#[trigger] crate::bytes::occurs_at(
                            kernel,
                            end_marker(),
                            k,
                        )
                },
            None => forall|i: int, j: int|
                #![trigger crate::bytes::occurs_at(kernel, begin_marker(), i), crate::bytes::occurs_at(kernel, end_marker(), j)]
                crate::bytes::occurs_at(kernel, begin_marker(), i) && (forall|k: int|
                    0 <= k < i ==> !#[trigger] crate::bytes::occurs_at(kernel, begin_marker(), k))
                    && i + 8 <= j ==> !crate::bytes::occurs_at(kernel, end_marker(), j),
        },
{
    lemma_between_is(kernel, begin_marker(), end_marker());
}

/// What stands between the first markers of a kernel.
proof fn lemma_between_is(kernel: Seq<u8>, begin: Seq<u8>, end: Seq<u8>)
    requires
        begin.len() == 8,
        end.len() == 8,
    ensures
        match between(kernel, begin, end) {
            Some(blob) => exists|i: int, j: int|
                {
                    &&& #[trigger] crate::bytes::occurs_at(kernel, begin, i)
                    &&& #[trigger] crate::bytes::occurs_at(kernel, end, j)
                    &&& i + 8 <= j
                    &&& blob == kernel.subrange(i + 8, j)
                    &&& forall|k: int|
                        0 <= k < i ==> !#[trigger] crate::bytes::occurs_at(kernel, begin, k)
                    &&& forall|k: int|
                        i + 8 <= k < j ==> !#[trigger] crate::bytes::occurs_at(kernel, end, k)
                },
            None => forall|i: int, j: int|
                #![trigger crate::bytes::occurs_at(kernel, begin, i), crate::bytes::occurs_at(kernel, end, j)]
                crate::bytes::occurs_at(kernel, begin, i) && (forall|k: int|
                    0 <= k < i ==> !#[trigger] crate::bytes::occurs_at(kernel, begin, k)) && i + 8
                    <= j ==> !crate::bytes::occurs_at(kernel, end, j),
        },
{
    let n = kernel.len() as int;
    let begins = |k: int| crate::bytes::occurs_at(kernel, begin, k);
    crate::bytes::lemma_least(n, begins);
    match crate::bytes::least(n, begins) {
        None => {
            assert forall|i: int, j: int|
                #![trigger crate::bytes::occurs_at(kernel, begin, i), crate::bytes::occurs_at(kernel, end, j)]
                crate::bytes::occurs_at(kernel, begin, i) implies !crate::bytes::occurs_at(
                kernel,
                end,
                j,
            ) by {
                assert(!begins(i));
            }
        },
        Some(i) => {
            let ends = |j: int| i + begin.len() <= j && crate::bytes::occurs_at(kernel, end, j);
            crate::bytes::lemma_least(n, ends);
            assert forall|k: int| 0 <= k < i implies !#[trigger] crate::bytes::occurs_at(
                kernel,
                begin,
                k,
            ) by {
                assert(!begins(k));
            }
            match crate::bytes::least(n, ends) {
                Some(j) => {
                    assert forall|k: int| i + 8 <= k < j implies !#[trigger] crate::bytes::occurs_at(
                        kernel,
                        end,
                        k,
                    ) by {
                        assert(!ends(k));
                    }
                    assert(crate::bytes::occurs_at(kernel, begin, i));
                    assert(crate::bytes::occurs_at(kernel, end, j));
                },
                None => {
                    assert forall|x: int, j: int|
                        #![trigger crate::bytes::occurs_at(kernel, begin, x), crate::bytes::occurs_at(kernel, end, j)]
                        crate::bytes::occurs_at(kernel, begin, x) && (forall|k: int|
                            0 <= k < x ==> !#[trigger] crate::bytes::occurs_at(kernel, begin, k))
                            && x + 8 <= j implies !crate::bytes::occurs_at(kernel, end, j) by {
                        assert(begins(i));
                        if x < i {
                            assert(!begins(x));
                        }
                        assert(x == i);
                        assert(!ends(j));
                    }
                },
            }
        },
    }
}

/// The config of a kernel is the text of its decompressed blob; a kernel whose blob does
/// not decompress to UTF-8, or that has none, carries no config.
pub proof fn config_is_the_text_of_the_blob(kernel: Seq<u8>)
    ensures
        match config_blob(kernel) {
            None => embedded_config(kernel) is None,
            Some(blob) => match crate::unpack::gunzipped(blob) {
                Err(_) => embedded_config(kernel) is None,
                Ok(out) => {
                    &&& embedded_config(kernel) is Some <==> vstd::utf8::valid_utf8(out)
                    &&& vstd::utf8::valid_utf8(out) ==> embedded_config(kernel)->0
                        == vstd::utf8::decode_utf8(out)
                },
            },
        },
{
}

/// A decompressed blob is a config exactly where it is UTF-8, and then it is its text.
pub proof fn blobs_are_utf8_text(out: Seq<u8>, why: Seq<char>)
    ensures
        blob_text(Ok(out)) is Some <==> vstd::utf8::valid_utf8(out),
        vstd::utf8::valid_utf8(out) ==> blob_text(Ok(out))->0 == vstd::utf8::decode_utf8(out),
        blob_text(Err(why)) is None,
{
}

/// What is held is seen as it is: a config by its text, a blob by its bytes or its
/// error, and each text of a list in its place.
pub proof fn configs_are_seen_as_they_are(
    config: KernelConfig,
    out: Vec<u8>,
    why: String,
    list: Seq<&str>,
)
    ensures
        config_view(Some(config)) == Some(config@),
        config_view(None) is None,
        decoded_view(Ok(out)) == Ok::<Seq<u8>, Seq<char>>(out@),
        decoded_view(Err(why)) == Err::<Seq<u8>, Seq<char>>(why@),
        texts(list).len() == list.len(),
        forall|i: int| 0 <= i < list.len() ==> #[trigger] texts(list)[i] == list[i]@,
{
}

/// How the kernel can be powered off.
pub open spec fn poweroff_of(text: Seq<char>, arch: Arch) -> PoweroffSupport {
    if arch == Arch::Aarch64 && (sets(text, "CONFIG_ARM_PSCI_FW"@) || sets(text, "CONFIG_ARM_PSCI"@)) {
        PoweroffSupport::Psci
    } else if arch == Arch::X86_64 && sets(text, "CONFIG_ACPI"@) {
        PoweroffSupport::Acpi
    } else if arch == Arch::X86_64 && sets(text, "CONFIG_POWER_RESET_SYSCON_POWEROFF"@) {
        PoweroffSupport::SysconDriver
    } else {
        PoweroffSupport::Unsupported
    }
}

/// An aarch64 kernel is powered off by PSCI exactly where it knows either form of it, and
/// by nothing else; an x86-64 kernel by ACPI exactly where it has it, else by its syscon
/// driver exactly where it has that, and never by PSCI.
pub proof fn poweroff_needs_its_driver(text: Seq<char>)
    ensures
        poweroff_of(text, Arch::Aarch64) == PoweroffSupport::Psci <==> sets(
            text,
            "CONFIG_ARM_PSCI"@,
        ) || sets(text, "CONFIG_ARM_PSCI_FW"@),
        poweroff_of(text, Arch::Aarch64) != PoweroffSupport::Psci ==> poweroff_of(
            text,
            Arch::Aarch64,
        ) == PoweroffSupport::Unsupported,
        poweroff_of(text, Arch::X86_64) == PoweroffSupport::Acpi <==> sets(text, "CONFIG_ACPI"@),
        poweroff_of(text, Arch::X86_64) == PoweroffSupport::SysconDriver <==> !sets(
            text,
            "CONFIG_ACPI"@,
        ) && sets(text, "CONFIG_POWER_RESET_SYSCON_POWEROFF"@),
        poweroff_of(text, Arch::X86_64) != PoweroffSupport::Psci,
{
}

/// No line assigns anything to a symbol that begins with white space or holds a newline.
pub proof fn spaced_symbols_are_never_assigned(text: Seq<char>, sym: Seq<char>, value: Seq<char>)
    requires
        sym.len() > 0,
        is_space(sym[0]) || sym.contains('\n'),
    ensures
        !config_assigns(text, sym, value),
{
    if config_assigns(text, sym, value) {
        let (a, e) = choose|a: int, e: int| #[trigger]
            is_line(text, a, e) && assigns(line_content(text, a, e), sym, value);
        let line = line_content(text, a, e);
        let solid = |i: int| !is_space(line[i]);
        crate::bytes::lemma_least(line.len() as int, solid);
        let k = crate::bytes::least(line.len() as int, solid)->0;
        let wanted = sym + seq!['='] + value;
        assert(solid(k));
        assert(wanted[0] == sym[0]);
        assert(line.skip(k)[0] == line[k]);
        if sym.contains('\n') {
            let i = choose|i: int| 0 <= i < sym.len() && sym[i] == '\n';
            assert(wanted[i] == '\n');
            assert(line.skip(k) == wanted);
            assert(line.skip(k).len() == line.len() - k);
            assert(line.skip(k)[i] == line[k + i]);
            assert(line[k + i] == text[a + k + i]);
        }
    }
}

} // verus!
