//! Which GPU, and which of its queues and kinds of memory.
use vstd::prelude::*;

use super::plan::TERNARY_TILE_MEMORY;
use crate::text::{decimal, digits, join2, join3, own, same_text};

verus! {

/// What a GPU is.
#[derive(Clone, Copy, Debug, PartialEq, Eq)]
pub enum Kind {
    Discrete,
    Integrated,
    Virtual,
    Other,
}

impl Kind {
    /// How far down the list of what is preferred.
    pub open spec fn place(self) -> int {
        match self {
            Kind::Discrete => 0,
            Kind::Integrated => 1,
            Kind::Virtual => 2,
            Kind::Other => 3,
        }
    }

    /// How far down the list of what is preferred.
    pub fn rank(&self) -> (n: usize)
        ensures
            n == self.place(),
    {
        match self {
            Kind::Discrete => 0,
            Kind::Integrated => 1,
            Kind::Virtual => 2,
            Kind::Other => 3,
        }
    }
}

/// The first GPU of those that are preferred most, if there is any.
pub fn pick(kinds: &[Kind]) -> (r: Option<usize>)
    ensures
        match r {
            None => kinds@.len() == 0,
            Some(i) => {
                &&& i < kinds@.len()
                &&& forall|j: int|
                    0 <= j < kinds@.len() ==> kinds@[i as int].place() <= (
                    #[trigger] kinds@[j]).place()
                &&& forall|j: int|
                    0 <= j < i ==> kinds@[i as int].place() < (#[trigger] kinds@[j]).place()
            },
        },
{
    if kinds.len() == 0 {
        return None;
    }
    let mut best: usize = 0;
    let mut i: usize = 1;
    while i < kinds.len()
        invariant
            1 <= i <= kinds@.len(),
            best < i,
            forall|j: int|
                0 <= j < i ==> kinds@[best as int].place() <= (#[trigger] kinds@[j]).place(),
            forall|j: int|
                0 <= j < best ==> kinds@[best as int].place() < (#[trigger] kinds@[j]).place(),
        decreases kinds@.len() - i,
    {
        if kinds[i].rank() < kinds[best].rank() {
            best = i;
        }
        i = i + 1;
    }
    Some(best)
}

/// The version of the interface that the kernels take, as the interface
/// numbers it: the second of its first.
pub const API_VERSION: u32 = 0x40_1000;

/// The operations within a subgroup that the kernels use: the basic ones,
/// arithmetic, and shuffles.
pub const SUBGROUP_OPERATIONS: u32 = 0x15;

/// The least that a subgroup is wide.
pub const SUBGROUP_SIZE: u32 = 16;

/// What a GPU tells of itself.
#[derive(Debug)]
pub struct Abilities {
    pub name: String,
    pub api_version: u32,
    pub subgroup_operations: u32,
    pub subgroup_size: u32,
    /// Bytes that the threads of a workgroup can share.
    pub shared_memory: u32,
    pub extensions: Vec<String>,
    /// Whether it computes in 16-bit floating point.
    pub float16: bool,
}

/// Whether all of some flags are among others.
pub open spec fn within(needed: u32, flags: u32) -> bool {
    flags & needed == needed
}

/// Whether a text is among others.
pub open spec fn lists(list: Seq<String>, name: Seq<char>) -> bool {
    exists|i: int| 0 <= i < list.len() && (#[trigger] list[i])@ == name
}

/// What a GPU lacks of what the kernels use, in words: of what it lacks, what
/// is looked at first.
pub open spec fn lack(a: Abilities) -> Option<Seq<char>> {
    if a.api_version < API_VERSION {
        Some(a.name@ + " does not support Vulkan 1.1"@)
    } else if !within(SUBGROUP_OPERATIONS, a.subgroup_operations) || a.subgroup_size
        < SUBGROUP_SIZE {
        Some(a.name@ + " lacks the subgroup operations the kernels use"@)
    } else if a.shared_memory < TERNARY_TILE_MEMORY {
        Some(
            a.name@ + " has less than the "@ + digits((TERNARY_TILE_MEMORY / 1024) as nat)
                + " KB of workgroup memory the kernels use"@,
        )
    } else if !lists(a.extensions@, "VK_KHR_push_descriptor"@) {
        Some(a.name@ + " lacks "@ + "VK_KHR_push_descriptor"@)
    } else if !lists(a.extensions@, "VK_KHR_shader_float16_int8"@) {
        Some(a.name@ + " lacks "@ + "VK_KHR_shader_float16_int8"@)
    } else if !a.float16 {
        Some(a.name@ + " lacks 16-bit float arithmetic, which the kernels use"@)
    } else {
        None
    }
}

/// Whether a text is among others.
fn named(list: &Vec<String>, name: &str) -> (r: bool)
    ensures
        r == lists(list@, name@),
{
    let mut i: usize = 0;
    while i < list.len()
        invariant
            i <= list@.len(),
            forall|j: int| 0 <= j < i ==> (#[trigger] list@[j])@ != name@,
        decreases list@.len() - i,
    {
        if same_text(&list[i], name) {
            return true;
        }
        i = i + 1;
    }
    false
}

/// That a GPU has what the kernels use, or what it lacks.
pub fn check(a: &Abilities) -> (r: Result<(), String>)
    ensures
        match r {
            Ok(_) => lack(*a) is None,
            Err(e) => lack(*a) == Some(e@),
        },
{
    if a.api_version < API_VERSION {
        return Err(join2(&a.name, " does not support Vulkan 1.1"));
    }
    if a.subgroup_operations & SUBGROUP_OPERATIONS != SUBGROUP_OPERATIONS || a.subgroup_size
        < SUBGROUP_SIZE {
        return Err(join2(&a.name, " lacks the subgroup operations the kernels use"));
    }
    if (a.shared_memory as u64) < TERNARY_TILE_MEMORY as u64 {
        let size = decimal((TERNARY_TILE_MEMORY / 1024) as u64);
        let start = join3(&a.name, " has less than the ", &size);
        return Err(join2(&start, " KB of workgroup memory the kernels use"));
    }
    if !named(&a.extensions, "VK_KHR_push_descriptor") {
        return Err(join3(&a.name, " lacks ", "VK_KHR_push_descriptor"));
    }
    if !named(&a.extensions, "VK_KHR_shader_float16_int8") {
        return Err(join3(&a.name, " lacks ", "VK_KHR_shader_float16_int8"));
    }
    if !a.float16 {
        return Err(
            join2(&a.name, " lacks 16-bit float arithmetic, which the kernels use"),
        );
    }
    Ok(())
}

/// The flag of a queue that computes.
pub const COMPUTE: u32 = 2;

/// The first family of queues, by their flags, that computes.
pub fn compute_family(families: &[u32]) -> (r: Result<u32, String>)
    requires
        families@.len() <= u32::MAX,
    ensures
        match r {
            Ok(i) => i < families@.len() && within(COMPUTE, families@[i as int]) && forall|j: int|
                0 <= j < i ==> !within(COMPUTE, #[trigger] families@[j]),
            Err(e) => e@ == "no compute queue"@ && forall|j: int|
                0 <= j < families@.len() ==> !within(COMPUTE, #[trigger] families@[j]),
        },
{
    let mut i: usize = 0;
    while i < families.len()
        invariant
            i <= families@.len() <= u32::MAX,
            forall|j: int| 0 <= j < i ==> !within(COMPUTE, #[trigger] families@[j]),
        decreases families@.len() - i,
    {
        if families[i] & COMPUTE == COMPUTE {
            return Ok(i as u32);
        }
        i = i + 1;
    }
    Err(own("no compute queue"))
}

/// Whether memory of a kind, by its number and its flags, will do.
pub open spec fn suits(bits: u32, i: int, flags: u32, needed: u32) -> bool {
    bits & (1u32 << i as u32) != 0 && within(needed, flags)
}

/// The first kind of memory, by their flags, that a buffer can take and that
/// has the flags needed.
pub fn memory_type(types: &[u32], bits: u32, needed: u32) -> (r: Result<u32, String>)
    requires
        types@.len() <= 32,
    ensures
        match r {
            Ok(i) => i < types@.len() && suits(bits, i as int, types@[i as int], needed)
                && forall|j: int|
                0 <= j < i ==> !suits(bits, j, #[trigger] types@[j], needed),
            Err(e) => e@ == "no suitable memory type"@ && forall|j: int|
                0 <= j < types@.len() ==> !suits(bits, j, #[trigger] types@[j], needed),
        },
{
    let mut i: usize = 0;
    while i < types.len()
        invariant
            i <= types@.len() <= 32,
            forall|j: int| 0 <= j < i ==> !suits(bits, j, #[trigger] types@[j], needed),
        decreases types@.len() - i,
    {
        if bits & (1u32 << i as u32) != 0 && types[i] & needed == needed {
            return Ok(i as u32);
        }
        i = i + 1;
    }
    Err(own("no suitable memory type"))
}

/// A GPU of its own is preferred to one that shares the processor, that to one
/// that is virtual, and that to any other.
pub proof fn law_kinds_are_preferred_in_order(a: Kind, b: Kind)
    ensures
        a == Kind::Discrete && b != Kind::Discrete ==> a.place() < b.place(),
        a == Kind::Integrated && (b == Kind::Virtual || b == Kind::Other) ==> a.place() < b.place(),
        a == Kind::Virtual && b == Kind::Other ==> a.place() < b.place(),
        a.place() == b.place() ==> a == b,
{
}

/// A GPU is taken if and only if it has the version, the basic, arithmetic and
/// shuffle operations in subgroups of sixteen or more, the workgroup memory,
/// the two extensions and the half-precision arithmetic that the kernels use.
pub proof fn law_able_gpus_lack_nothing(a: Abilities)
    ensures
        lack(a) is None <==> {
            &&& a.api_version >= 0x40_1000
            &&& a.subgroup_operations & 1 != 0
            &&& a.subgroup_operations & 4 != 0
            &&& a.subgroup_operations & 0x10 != 0
            &&& a.subgroup_size >= 16
            &&& a.shared_memory >= 32768
            &&& lists(a.extensions@, "VK_KHR_push_descriptor"@)
            &&& lists(a.extensions@, "VK_KHR_shader_float16_int8"@)
            &&& a.float16
        },
{
    let ops = a.subgroup_operations;
    assert(ops & 0x15 == 0x15 <==> (ops & 1 != 0 && ops & 4 != 0 && ops & 0x10 != 0))
        by (bit_vector);
}

/// The first word on what a GPU lacks is its name.
pub proof fn law_lack_names_the_gpu(a: Abilities)
    requires
        lack(a) is Some,
    ensures
        a.name@.is_prefix_of(lack(a)->0),
{
    let said = lack(a)->0;
    assert(said.take(a.name@.len() as int) =~= a.name@);
}

} // verus!
