//! What a loader yields: the module's base address, its sections with their permissions,
//! and the address space that holds its bytes.
use crate::aspace::{DenseAddressSpace, PAGE_SIZE, page_of, view_at, view_range, view_mapped};
use vstd::prelude::*;

verus! {

/// Why a buffer could not be loaded.
#[derive(Debug, Clone, Copy, PartialEq, Eq, Structural)]
pub enum LoaderError {
    /// No loader recognizes the buffer.
    NotSupported,
    /// The buffer's bitness does not match the architecture.
    MismatchedBitness,
}

/// Container format of a module.
#[derive(Debug, Clone, Copy, PartialEq, Eq, Structural)]
pub enum FileFormat {
    /// Flat shellcode.
    Raw,
    PE,
}

impl FileFormat {
    /// The format's display name.
    pub fn name(&self) -> (r: &'static str)
        ensures
            *self == FileFormat::Raw ==> r@ == "Raw"@,
            *self == FileFormat::PE ==> r@ == "PE"@,
    {
        match self {
            FileFormat::Raw => "Raw",
            FileFormat::PE => "PE",
        }
    }
}

/// Operating system a module targets.
#[derive(Debug, Clone, Copy, PartialEq, Eq, Structural)]
pub enum Platform {
    Windows,
}

impl Platform {
    /// The platform's display name.
    pub fn name(&self) -> (r: &'static str)
        ensures
            r@ == "Windows"@,
    {
        match self {
            Platform::Windows => "Windows",
        }
    }
}

/// Instruction set and pointer width.
#[derive(Debug, Clone, Copy, PartialEq, Eq, Structural)]
pub enum Arch {
    X32,
    X64,
}

impl Arch {
    /// Size in bytes of a pointer.
    pub open spec fn spec_pointer_size(self) -> nat {
        match self {
            Arch::X32 => 4,
            Arch::X64 => 8,
        }
    }

    /// Size in bytes of a pointer.
    pub fn pointer_size(&self) -> (r: usize)
        ensures
            r == self.spec_pointer_size(),
    {
        match self {
            Arch::X32 => 4,
            Arch::X64 => 8,
        }
    }

    /// The architecture's display name.
    pub fn name(&self) -> (r: &'static str)
        ensures
            *self == Arch::X32 ==> r@ == "x32"@,
            *self == Arch::X64 ==> r@ == "x64"@,
    {
        match self {
            Arch::X32 => "x32",
            Arch::X64 => "x64",
        }
    }
}

/// A subset of {read, write, execute}.
#[derive(Debug, Clone, Copy, PartialEq, Eq, Structural)]
pub struct Permissions(pub u8);

/// Read permission.
pub const PERM_R: u8 = 0b001;
/// Write permission.
pub const PERM_W: u8 = 0b010;
/// Execute permission.
pub const PERM_X: u8 = 0b100;

impl Permissions {
    /// Do the two sets share a permission?
    pub fn intersects(&self, other: Permissions) -> (r: bool)
        ensures
            r == (self.0 & other.0 != 0),
    {
        self.0 & other.0 != 0
    }
}

/// A contiguous region of the module.
#[derive(Debug)]
pub struct Section {
    pub addr: u64,
    pub size: u32,
    pub perms: Permissions,
    pub name: Vec<u8>,
}

/// `rva` lies in `[s.addr, s.addr + s.size)`.
pub open spec fn section_contains(s: Section, rva: int) -> bool {
    s.addr <= rva < s.addr + s.size
}

/// The section may be executed.
pub open spec fn section_executable(s: Section) -> bool {
    s.perms.0 & PERM_X != 0
}

impl Section {
    /// Does the section hold `rva`?
    pub fn contains(&self, rva: u64) -> (r: bool)
        ensures
            r == section_contains(*self, rva as int),
    {
        rva >= self.addr && rva - self.addr < self.size as u64
    }

    /// May the section be executed?
    pub fn is_executable(&self) -> (r: bool)
        ensures
            r == section_executable(*self),
    {
        self.perms.intersects(Permissions(PERM_X))
    }

    /// The first address past the section.
    pub fn end(&self) -> (r: u64)
        requires
            self.addr + self.size <= u64::MAX,
        ensures
            r == self.addr + self.size,
    {
        self.addr + self.size as u64
    }
}

/// A loaded module.
pub struct LoadedModule {
    pub base_address: u64,
    pub sections: Vec<Section>,
    pub address_space: DenseAddressSpace<u8>,
}

/// The end of the section that ends last, or `0` with no sections.
pub open spec fn max_end(sections: Seq<Section>) -> int
    decreases sections.len(),
{
    if sections.len() == 0 {
        0
    } else {
        let rest = max_end(sections.drop_last());
        let e = sections.last().addr + sections.last().size;
        if e > rest {
            e
        } else {
            rest
        }
    }
}

/// Every section ends at or before `max_end`, and when all of them end at or before
/// `bound`, so does `max_end`.
pub proof fn lemma_max_end(sections: Seq<Section>, bound: int)
    ensures
        forall|i: int|
            0 <= i < sections.len() ==> (#[trigger] sections[i]).addr + sections[i].size <= max_end(sections),
        max_end(sections) >= 0,
        (forall|i: int| 0 <= i < sections.len() ==> (#[trigger] sections[i]).addr + sections[i].size <= bound)
            && bound >= 0 ==> max_end(sections) <= bound,
    decreases sections.len(),
{
    if sections.len() > 0 {
        let rest = sections.drop_last();
        lemma_max_end(rest, bound);
        assert forall|i: int| 0 <= i < sections.len() implies (#[trigger] sections[i]).addr + sections[i].size
            <= max_end(sections) by {
            if i < rest.len() {
                assert(rest[i] == sections[i]);
            }
        }
        if forall|i: int| 0 <= i < sections.len() ==> (#[trigger] sections[i]).addr + sections[i].size <= bound {
            assert forall|i: int| 0 <= i < rest.len() implies (#[trigger] rest[i]).addr + rest[i].size <= bound by {
                assert(rest[i] == sections[i]);
            }
        }
    }
}

impl LoadedModule {
    /// Section ends fit in an address, and the address space is well formed.
    pub open spec fn wf(&self) -> bool {
        &&& self.address_space.wf()
        &&& forall|i: int|
            0 <= i < self.sections@.len() ==> (#[trigger] self.sections@[i]).addr
                + self.sections@[i].size <= u64::MAX
    }

    /// The first address past every section (zero with no sections).
    pub fn max_address(&self) -> (r: u64)
        requires
            self.wf(),
        ensures
            r == max_end(self.sections@),
    {
        let mut m: u64 = 0;
        let mut i: usize = 0;
        while i < self.sections.len()
            invariant
                self.wf(),
                i <= self.sections@.len(),
                m == max_end(self.sections@.take(i as int)),
            decreases self.sections@.len() - i,
        {
            assert(self.sections@.take(i + 1).drop_last() =~= self.sections@.take(i as int));
            let e = self.sections[i].end();
            if e > m {
                m = e;
            }
            i = i + 1;
        }
        assert(self.sections@.take(i as int) =~= self.sections@);
        m
    }
}

/// The number of bytes to map for `n` bytes: `n` rounded up to whole pages.
pub open spec fn page_round(n: int) -> int {
    if n % (PAGE_SIZE as int) == 0 {
        n
    } else {
        n + (PAGE_SIZE as int) - n % (PAGE_SIZE as int)
    }
}

/// Load flat shellcode: one readable, writable, executable section named `raw` at base
/// zero holding `buf` verbatim.
pub fn load_shellcode(buf: &[u8]) -> (r: LoadedModule)
    requires
        buf@.len() + PAGE_SIZE <= u32::MAX,
    ensures
        r.wf(),
        r.base_address == 0,
        r.sections@.len() == 1,
        r.sections@[0].addr == 0,
        r.sections@[0].size == buf@.len(),
        r.sections@[0].perms.0 == PERM_R | PERM_W | PERM_X,
        r.sections@[0].name@ == seq![0x72u8, 0x61u8, 0x77u8],
        view_mapped(r.address_space@, 0, buf@.len() as int),
        view_range(r.address_space@, 0, buf@.len() as int) == buf@,
        forall|a: int| a >= page_round(buf@.len() as int) ==> #[trigger] view_at(r.address_space@, a) is None,
{
    let n = buf.len();
    let size = if n % PAGE_SIZE == 0 { n } else { n + (PAGE_SIZE - n % PAGE_SIZE) };
    assert(size % PAGE_SIZE == 0) by {
        assert(size as int == page_round(n as int));
        assert(((n + (PAGE_SIZE - n % PAGE_SIZE)) as int) % (PAGE_SIZE as int) == 0) by {
            vstd::arithmetic::div_mod::lemma_fundamental_div_mod(n as int, PAGE_SIZE as int);
            vstd::arithmetic::div_mod::lemma_fundamental_div_mod_converse(
                (n + (PAGE_SIZE - n % PAGE_SIZE)) as int,
                PAGE_SIZE as int,
                (n / PAGE_SIZE + 1) as int,
                0,
            );
        }
    }
    let mut bytes: Vec<u8> = Vec::with_capacity(size);
    let mut i: usize = 0;
    while i < size
        invariant
            n == buf@.len(),
            n <= size,
            i <= size,
            bytes@.len() == i,
            forall|j: int| 0 <= j < i && j < n ==> bytes@[j] == buf@[j],
        decreases size - i,
    {
        if i < n {
            bytes.push(buf[i]);
        } else {
            bytes.push(0);
        }
        i = i + 1;
    }
    let mut aspace: DenseAddressSpace<u8> = DenseAddressSpace::with_capacity(size as u64);
    assert(page_of(0) == 0);
    assert(size as int / PAGE_SIZE as int <= page_of(size as int) + 1);
    let ghost v0 = aspace@;
    let res = aspace.map(0, bytes.as_slice());
    assert(res is Ok);
    proof {
        crate::aspace::lemma_map_read_round_trip(v0, 0, bytes@);
        crate::aspace::lemma_range_split(aspace@, 0, n as int, size as int);
        assert forall|a: int| a >= page_round(n as int) implies #[trigger] view_at(aspace@, a) is None by {
            crate::aspace::lemma_map_elsewhere(v0, 0, bytes@, a);
            if 0 <= a && page_of(a) < v0.len() {
                assert(v0[page_of(a)] is None);
            }
        }
        assert(view_range(aspace@, 0, n as int) =~= buf@) by {
            assert(view_range(aspace@, 0, size as int) == bytes@);
            assert forall|j: int| 0 <= j < n implies view_range(aspace@, 0, n as int)[j] == buf@[j] by {
                assert(view_range(aspace@, 0, size as int)[j] == bytes@[j]);
            }
        }
    }
    let mut name: Vec<u8> = Vec::new();
    name.push(0x72);
    name.push(0x61);
    name.push(0x77);
    let mut sections: Vec<Section> = Vec::new();
    sections.push(Section { addr: 0, size: n as u32, perms: Permissions(PERM_R | PERM_W | PERM_X), name });
    LoadedModule { base_address: 0, sections, address_space: aspace }
}

} // verus!
