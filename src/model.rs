use vstd::prelude::*;
use vstd::utf8::encode_utf8_decode_utf8;

verus! {

/// Access mode of a logical memory.
#[derive(Clone, Copy, Debug, PartialEq, Eq, Structural)]
pub enum MemMode {
    Rom,
    SinglePort,
    SimpleDualPort,
    TrueDualPort,
}

/// The three physical memory resource kinds, in their fixed tie-break order.
#[derive(Clone, Copy, Debug, PartialEq, Eq, Structural)]
pub enum PhysType {
    Lutram,
    Ram8K,
    Ram128K,
}

/// Configuration of one physical resource kind.
#[derive(Clone, Copy, Debug, PartialEq, Eq, Structural)]
pub struct PhysConfig {
    pub phys_type: PhysType,
    /// Bit capacity of one macro.
    pub bits: i32,
    /// Largest data width in single-port and simple-dual-port modes.
    pub max_width_non_tdp: i32,
    /// Largest data width in true-dual-port mode; 0 when that mode is unsupported.
    pub max_width_tdp: i32,
}

/// One logical memory of a circuit.
#[derive(Clone, Copy, Debug, PartialEq, Eq, Structural)]
pub struct Memory {
    pub ram_id: i32,
    pub mode: MemMode,
    pub depth: i32,
    pub width: i32,
}

/// A circuit: its plain logic demand and its logical memories, in order.
#[derive(Debug)]
pub struct Circuit {
    pub id: i32,
    pub logic_blocks: i32,
    pub memories: Vec<Memory>,
}

/// How one logical memory is realised physically.
#[derive(Clone, Copy, Debug, PartialEq, Eq, Structural)]
pub struct RamMapping {
    pub circuit_id: i32,
    pub logical_ram_id: i32,
    /// Logic resources spent on address decoding and output multiplexing.
    pub extra_luts: i64,
    pub logical_width: i32,
    pub logical_depth: i32,
    /// Shared by two mappings merged into one dual-port macro.
    pub group_id: i32,
    /// Macros chained in depth.
    pub series: i32,
    /// Macros replicated in width.
    pub parallel: i32,
    pub phys_type: PhysType,
    pub mode: MemMode,
    pub phys_width: i32,
    pub phys_depth: i32,
    /// `series * parallel`.
    pub phys_blocks: i64,
}

/// All mappings of a run, with the total extra logic and the block count of each kind.
#[derive(Debug)]
pub struct CircuitResult {
    pub mappings: Vec<RamMapping>,
    pub extra_luts: i128,
    pub lutram_blocks: i128,
    pub m8k_blocks: i128,
    pub m128k_blocks: i128,
}

/// Why a run cannot produce a mapping set.
#[derive(Clone, Copy, Debug, PartialEq, Eq, Structural)]
pub enum MapError {
    /// No physical resource kind is enabled.
    NoKindEnabled,
    /// The memory has no legal realisation under any enabled kind.
    Unmappable { circuit_id: i32, ram_id: i32 },
}

/// The name of a mode as written in memory descriptions.
pub open spec fn mode_name(m: MemMode) -> Seq<char> {
    match m {
        MemMode::Rom => "ROM"@,
        MemMode::SinglePort => "SinglePort"@,
        MemMode::SimpleDualPort => "SimpleDualPort"@,
        MemMode::TrueDualPort => "TrueDualPort"@,
    }
}

/// The mode whose name is `s`, if any.
pub open spec fn mode_of_name(s: Seq<char>) -> Option<MemMode> {
    if s == "ROM"@ {
        Some(MemMode::Rom)
    } else if s == "SinglePort"@ {
        Some(MemMode::SinglePort)
    } else if s == "SimpleDualPort"@ {
        Some(MemMode::SimpleDualPort)
    } else if s == "TrueDualPort"@ {
        Some(MemMode::TrueDualPort)
    } else {
        None
    }
}

/// Numeric identifier of a resource kind in mapping reports.
pub open spec fn type_id_spec(t: PhysType) -> i32 {
    match t {
        PhysType::Lutram => 1,
        PhysType::Ram8K => 2,
        PhysType::Ram128K => 3,
    }
}

fn bytes_equal(a: &[u8], b: &[u8]) -> (r: bool)
    ensures
        r == (a@ == b@),
{
    if a.len() != b.len() {
        return false;
    }
    let mut i: usize = 0;
    while i < a.len()
        invariant
            a@.len() == b@.len(),
            0 <= i <= a@.len(),
            forall|k: int| 0 <= k < i ==> a@[k] == b@[k],
        decreases a@.len() - i,
    {
        if a[i] != b[i] {
            return false;
        }
        i = i + 1;
    }
    assert(a@ =~= b@);
    true
}

fn str_equal(a: &str, b: &str) -> (r: bool)
    ensures
        r == (a@ == b@),
{
    let r = bytes_equal(a.as_bytes(), b.as_bytes());
    proof {
        encode_utf8_decode_utf8(a@);
        encode_utf8_decode_utf8(b@);
    }
    r
}

impl MemMode {
    /// The mode named `s`, or `None` for an unknown name.
    pub fn from_str(s: &str) -> (r: Option<MemMode>)
        ensures
            r == mode_of_name(s@),
    {
        if str_equal(s, "ROM") {
            Some(MemMode::Rom)
        } else if str_equal(s, "SinglePort") {
            Some(MemMode::SinglePort)
        } else if str_equal(s, "SimpleDualPort") {
            Some(MemMode::SimpleDualPort)
        } else if str_equal(s, "TrueDualPort") {
            Some(MemMode::TrueDualPort)
        } else {
            None
        }
    }

    /// The name of this mode.
    pub fn as_str(&self) -> (r: &'static str)
        ensures
            r@ == mode_name(*self),
    {
        proof {
            reveal_strlit("ROM");
            reveal_strlit("SinglePort");
            reveal_strlit("SimpleDualPort");
            reveal_strlit("TrueDualPort");
        }
        match self {
            MemMode::Rom => "ROM",
            MemMode::SinglePort => "SinglePort",
            MemMode::SimpleDualPort => "SimpleDualPort",
            MemMode::TrueDualPort => "TrueDualPort",
        }
    }
}

impl PhysType {
    /// Numeric identifier of this kind: 1, 2 or 3 in tie-break order.
    pub fn type_id(&self) -> (r: i32)
        ensures
            r == type_id_spec(*self),
    {
        match self {
            PhysType::Lutram => 1,
            PhysType::Ram8K => 2,
            PhysType::Ram128K => 3,
        }
    }
}

} // verus!
