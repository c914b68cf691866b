//! Portable Executable modules: the headers the analysis needs (read with goblin), the
//! loader that lays sections out in an address space, and the base-relocation directory.
use crate::aspace::{
    lemma_aligned_split, offset_of, page_of, view_at, view_map, view_mapped, view_range, DenseAddressSpace,
    PAGE_SIZE,
};
use crate::loader::{LoadedModule, LoaderError, Permissions, Section, PERM_R, PERM_W, PERM_X};
use vstd::prelude::*;

verus! {

/// Section may be executed.
pub const IMAGE_SCN_MEM_EXECUTE: u32 = 0x2000_0000;
/// Section may be read.
pub const IMAGE_SCN_MEM_READ: u32 = 0x4000_0000;
/// Section may be written.
pub const IMAGE_SCN_MEM_WRITE: u32 = 0x8000_0000;

/// The fields of a PE's headers that the analysis reads.
#[derive(Debug, Clone, Copy, PartialEq, Eq, Structural)]
pub struct PeHeaders {
    pub is_64: bool,
    pub image_base: u64,
    /// Relative address of the entry point.
    pub entry: u32,
    /// The base-relocation directory, if there is one.
    pub reloc_directory: Option<DataDirectory>,
}

/// Where a data directory of a PE lies: its relative address and its size.
#[derive(Debug, Clone, Copy, PartialEq, Eq, Structural)]
pub struct DataDirectory {
    pub rva: u32,
    pub size: u32,
}

/// One entry of a PE's section table.
#[derive(Debug)]
pub struct PeSection {
    pub name: Vec<u8>,
    pub virtual_address: u32,
    pub virtual_size: u32,
    pub pointer_to_raw_data: u32,
    pub size_of_raw_data: u32,
    pub characteristics: u32,
}

/// One exported symbol of a PE.
#[derive(Debug)]
pub struct PeExport {
    pub name: Option<Vec<u8>>,
    pub rva: u64,
}

/// The headers that goblin reads from the bytes of a PE, if it can parse them.
pub uninterp spec fn pe_headers_of(b: Seq<u8>) -> Option<PeHeaders>;

/// The section table that goblin reads from the bytes of a PE, if it can parse them.
pub uninterp spec fn pe_sections_of(b: Seq<u8>) -> Option<Seq<PeSection>>;

/// The exports that goblin reads from the bytes of a PE, if it can parse them.
pub uninterp spec fn pe_exports_of(b: Seq<u8>) -> Option<Seq<PeExport>>;

/// Relies on goblin's `pe::PE::parse_with_opts`, with certificates, TLS data, resources
/// and imports left unparsed: the 64-bit flag, image base, entry point and
/// base-relocation directory of the parsed headers. The result depends on the bytes alone.
#[verifier::external_body]
pub fn parse_pe_headers(buf: &[u8]) -> (r: Option<PeHeaders>)
    ensures
        r == pe_headers_of(buf@),
{
    let pe = {
        let mut o = goblin::pe::options::ParseOptions::default();
        (o.parse_attribute_certificates, o.parse_tls_data, o.parse_resources, o.parse_imports) = (false, false, false, false);
        goblin::pe::PE::parse_with_opts(buf, &o).ok()?
    };
    let dir = pe.header.optional_header.and_then(|h| h.data_directories.get_base_relocation_table().copied());
    let reloc_directory = dir.map(|d| DataDirectory { rva: d.virtual_address, size: d.size });
    Some(PeHeaders { is_64: pe.is_64, image_base: pe.image_base, entry: pe.entry, reloc_directory })
}

/// Relies on goblin's `pe::PE::parse_with_opts`, with certificates, TLS data, resources
/// and imports left unparsed: its section table, in order. The result depends on
/// the bytes alone.
#[verifier::external_body]
pub fn parse_pe_sections(buf: &[u8]) -> (r: Option<Vec<PeSection>>)
    ensures
        r matches Some(v) ==> pe_sections_of(buf@) == Some(v@),
        r is None ==> pe_sections_of(buf@) is None,
{
    let pe = {
        let mut o = goblin::pe::options::ParseOptions::default();
        (o.parse_attribute_certificates, o.parse_tls_data, o.parse_resources, o.parse_imports) = (false, false, false, false);
        goblin::pe::PE::parse_with_opts(buf, &o).ok()?
    };
    Some(pe.sections.iter().map(|s| PeSection {
        name: s.name.to_vec(), virtual_address: s.virtual_address, virtual_size: s.virtual_size,
        pointer_to_raw_data: s.pointer_to_raw_data, size_of_raw_data: s.size_of_raw_data,
        characteristics: s.characteristics,
    }).collect())
}

/// Relies on goblin's `pe::PE::parse_with_opts`, with certificates, TLS data, resources
/// and imports left unparsed: its exports, in order. The result depends on the
/// bytes alone.
#[verifier::external_body]
pub fn parse_pe_exports(buf: &[u8]) -> (r: Option<Vec<PeExport>>)
    ensures
        r matches Some(v) ==> pe_exports_of(buf@) == Some(v@),
        r is None ==> pe_exports_of(buf@) is None,
{
    let pe = {
        let mut o = goblin::pe::options::ParseOptions::default();
        (o.parse_attribute_certificates, o.parse_tls_data, o.parse_resources, o.parse_imports) = (false, false, false, false);
        goblin::pe::PE::parse_with_opts(buf, &o).ok()?
    };
    Some(pe.exports.iter().map(|e| PeExport { name: e.name.map(|n| n.as_bytes().to_vec()), rva: e.rva as u64 }).collect())
}

/// The permissions that section characteristics grant.
pub open spec fn perms_of(ch: u32) -> u8 {
    ((if ch & IMAGE_SCN_MEM_READ != 0 { PERM_R } else { 0 }) | (if ch & IMAGE_SCN_MEM_WRITE != 0 {
        PERM_W
    } else {
        0
    }) | (if ch & IMAGE_SCN_MEM_EXECUTE != 0 { PERM_X } else { 0 })) as u8
}

fn perms_from_characteristics(ch: u32) -> (r: u8)
    ensures
        r == perms_of(ch),
{
    (if ch & IMAGE_SCN_MEM_READ != 0 { PERM_R } else { 0 }) | (if ch & IMAGE_SCN_MEM_WRITE != 0 {
        PERM_W
    } else {
        0
    }) | (if ch & IMAGE_SCN_MEM_EXECUTE != 0 { PERM_X } else { 0 })
}

/// The size a section occupies in memory: its virtual size, or its raw size when the
/// virtual size is zero.
pub open spec fn mem_size(s: PeSection) -> int {
    if s.virtual_size != 0 {
        s.virtual_size as int
    } else {
        s.size_of_raw_data as int
    }
}

/// `n` rounded up to whole pages.
pub open spec fn round_page(n: int) -> int {
    if n % (PAGE_SIZE as int) == 0 {
        n
    } else {
        n + (PAGE_SIZE as int) - n % (PAGE_SIZE as int)
    }
}

/// The bytes mapped for a section: its memory size, and its raw data, rounded up to pages.
pub open spec fn mapped_size(s: PeSection) -> int {
    round_page(if mem_size(s) > s.size_of_raw_data { mem_size(s) } else { s.size_of_raw_data as int })
}

/// The section can be laid out: page aligned, its raw data inside the file, its end
/// a page below 4 GiB.
pub open spec fn section_loadable(s: PeSection, file_len: int) -> bool {
    &&& s.virtual_address as int % (PAGE_SIZE as int) == 0
    &&& s.pointer_to_raw_data + s.size_of_raw_data <= file_len
    &&& s.virtual_address + mapped_size(s) <= u32::MAX - PAGE_SIZE
}

/// The module section for a section-table entry.
pub open spec fn section_matches(m: Section, s: PeSection) -> bool {
    &&& m.addr == s.virtual_address
    &&& m.size == mem_size(s)
    &&& m.perms.0 == perms_of(s.characteristics)
}

/// What a section holds in memory: its raw data, then zeros up to its mapped size.
pub open spec fn section_bytes(buf: Seq<u8>, s: PeSection) -> Seq<u8> {
    Seq::new(
        mapped_size(s) as nat,
        |k: int| if k < s.size_of_raw_data { buf[s.pointer_to_raw_data + k] } else { 0u8 },
    )
}

/// No section after `i` shares an address with section `i`.
pub open spec fn not_overlaid(secs: Seq<PeSection>, i: int) -> bool {
    forall|j: int|
        i < j < secs.len() ==> (#[trigger] secs[j]).virtual_address + mapped_size(secs[j])
            <= secs[i].virtual_address || secs[i].virtual_address + mapped_size(secs[i])
            <= secs[j].virtual_address
}

/// Mapping more pages never unmaps an address.
proof fn lemma_map_keeps_mapped(v: Seq<Option<Seq<u8>>>, rva: int, items: Seq<u8>, a: int, b: int)
    requires
        view_mapped(v, a, b),
    ensures
        view_mapped(view_map(v, rva, items), a, b),
{
    let w = view_map(v, rva, items);
    assert forall|i: int| a <= i < b implies (#[trigger] view_at(w, i)) is Some by {
        assert(view_at(v, i) is Some);
    }
}

fn round_up_page(n: u64) -> (r: u64)
    requires
        n + PAGE_SIZE <= u64::MAX,
    ensures
        r == round_page(n as int),
        r % (PAGE_SIZE as u64) == 0,
        r >= n,
{
    let rem = n % (PAGE_SIZE as u64);
    if rem == 0 {
        n
    } else {
        let r = n + (PAGE_SIZE as u64 - rem);
        assert(r % 4096 == 0) by {
            vstd::arithmetic::div_mod::lemma_fundamental_div_mod(n as int, 4096);
            vstd::arithmetic::div_mod::lemma_fundamental_div_mod_converse(r as int, 4096, n / 4096 + 1, 0);
        }
        r
    }
}

/// Lay the sections of a PE out in an address space at their relative addresses, each
/// holding its raw data followed by zeros. `NotSupported` when a section cannot be laid
/// out.
pub fn load_pe_layout(buf: &[u8], hdrs: PeHeaders, secs: &Vec<PeSection>) -> (r: Result<LoadedModule, LoaderError>)
    ensures
        r is Ok <==> forall|i: int| 0 <= i < secs@.len() ==> section_loadable(#[trigger] secs@[i], buf@.len() as int),
        r matches Ok(m) ==> {
            &&& m.wf()
            &&& m.base_address == hdrs.image_base
            &&& m.sections@.len() == secs@.len()
            &&& forall|i: int| 0 <= i < secs@.len() ==> section_matches(#[trigger] m.sections@[i], secs@[i])
            &&& crate::loader::max_end(m.sections@) <= u32::MAX - PAGE_SIZE
            &&& forall|i: int|
                0 <= i < secs@.len() ==> view_mapped(
                    m.address_space@,
                    (#[trigger] secs@[i]).virtual_address as int,
                    secs@[i].virtual_address + mapped_size(secs@[i]),
                )
            &&& forall|i: int|
                0 <= i < secs@.len() && not_overlaid(secs@, i) ==> view_range(
                    m.address_space@,
                    (#[trigger] secs@[i]).virtual_address as int,
                    secs@[i].virtual_address + mapped_size(secs@[i]),
                ) == section_bytes(buf@, secs@[i])
        },
        r matches Err(e) ==> e == LoaderError::NotSupported,
{
    let mut cap: u64 = 0;
    let mut i: usize = 0;
    while i < secs.len()
        invariant
            i <= secs@.len(),
            cap <= u32::MAX,
            forall|j: int| 0 <= j < i ==> section_loadable(#[trigger] secs@[j], buf@.len() as int),
            forall|j: int| 0 <= j < i ==> (#[trigger] secs@[j]).virtual_address + mapped_size(secs@[j]) <= cap,
        decreases secs@.len() - i,
    {
        let s = &secs[i];
        let msize = if s.virtual_size != 0 { s.virtual_size } else { s.size_of_raw_data };
        let span = if msize as u64 > s.size_of_raw_data as u64 { msize as u64 } else { s.size_of_raw_data as u64 };
        let span = round_up_page(span);
        if s.virtual_address as u64 % (PAGE_SIZE as u64) != 0
            || s.pointer_to_raw_data as u64 + s.size_of_raw_data as u64 > buf.len() as u64
            || s.virtual_address as u64 + span > (u32::MAX as u64 - PAGE_SIZE as u64) {
            proof {
                assert(!section_loadable(secs@[i as int], buf@.len() as int));
            }
            return Err(LoaderError::NotSupported);
        }
        let end = s.virtual_address as u64 + span;
        if end > cap {
            cap = end;
        }
        i = i + 1;
    }
    let mut aspace: DenseAddressSpace<u8> = DenseAddressSpace::with_capacity(cap);
    let ghost npages = page_of(cap as int) + 1;
    let mut sections: Vec<Section> = Vec::new();
    let mut i: usize = 0;
    while i < secs.len()
        invariant
            i <= secs@.len(),
            cap <= u32::MAX,
            aspace.wf(),
            aspace@.len() == npages,
            npages == page_of(cap as int) + 1,
            forall|j: int| 0 <= j < secs@.len() ==> section_loadable(#[trigger] secs@[j], buf@.len() as int),
            forall|j: int| 0 <= j < secs@.len() ==> (#[trigger] secs@[j]).virtual_address + mapped_size(secs@[j]) <= cap,
            sections@.len() == i,
            forall|j: int| 0 <= j < i ==> section_matches(#[trigger] sections@[j], secs@[j]),
            forall|j: int| 0 <= j < i ==> (#[trigger] sections@[j]).addr + sections@[j].size <= u64::MAX,
            forall|j: int|
                0 <= j < i ==> view_mapped(
                    aspace@,
                    (#[trigger] secs@[j]).virtual_address as int,
                    secs@[j].virtual_address + mapped_size(secs@[j]),
                ),
            forall|j: int|
                0 <= j < i && (forall|l: int| j < l < i ==> (#[trigger] secs@[l]).virtual_address + mapped_size(secs@[l])
                    <= secs@[j].virtual_address || secs@[j].virtual_address + mapped_size(secs@[j])
                    <= secs@[l].virtual_address) ==> view_range(
                    aspace@,
                    (#[trigger] secs@[j]).virtual_address as int,
                    secs@[j].virtual_address + mapped_size(secs@[j]),
                ) == section_bytes(buf@, secs@[j]),
        decreases secs@.len() - i,
    {
        let s = &secs[i];
        assert(section_loadable(secs@[i as int], buf@.len() as int));
        let msize = if s.virtual_size != 0 { s.virtual_size } else { s.size_of_raw_data };
        let span = if msize as u64 > s.size_of_raw_data as u64 { msize as u64 } else { s.size_of_raw_data as u64 };
        let span = round_up_page(span);
        let start = s.pointer_to_raw_data as usize;
        let raw = s.size_of_raw_data as usize;
        let mut chunk: Vec<u8> = Vec::with_capacity(span as usize);
        let mut k: usize = 0;
        while k < span as usize
            invariant
                k <= span,
                chunk@.len() == k,
                start + raw <= buf.len(),
                forall|z: int| 0 <= z < k ==> #[trigger] chunk@[z] == if z < raw { buf@[start + z] } else { 0u8 },
            decreases span - k,
        {
            if k < raw {
                chunk.push(buf[start + k]);
            } else {
                chunk.push(0);
            }
            k = k + 1;
        }
        let va = s.virtual_address as u64;
        let ghost before = aspace@;
        proof {
            lemma_aligned_split(va as int, span as int);
            assert(offset_of(span as int) == 0);
            assert(page_of(va + span) <= page_of(cap as int)) by {
                vstd::arithmetic::div_mod::lemma_div_is_ordered(va + span, cap as int, 4096);
            }
        }
        let res = aspace.map(va, chunk.as_slice());
        assert(res is Ok);
        proof {
            assert forall|j: int|
                0 <= j < i + 1 implies view_mapped(
                    aspace@,
                    (#[trigger] secs@[j]).virtual_address as int,
                    secs@[j].virtual_address + mapped_size(secs@[j]),
                ) by {
                if j < i {
                    lemma_map_keeps_mapped(before, va as int, chunk@, secs@[j].virtual_address as int, secs@[j].virtual_address + mapped_size(secs@[j]));
                } else {
                    crate::aspace::lemma_map_read_round_trip(before, va as int, chunk@);
                }
            }
            assert(chunk@ =~= section_bytes(buf@, secs@[i as int]));
            crate::aspace::lemma_map_read_round_trip(before, va as int, chunk@);
            assert forall|j: int|
                0 <= j < i + 1 && (forall|l: int| j < l < i + 1 ==> (#[trigger] secs@[l]).virtual_address + mapped_size(secs@[l])
                    <= secs@[j].virtual_address || secs@[j].virtual_address + mapped_size(secs@[j])
                    <= secs@[l].virtual_address) implies view_range(
                    aspace@,
                    (#[trigger] secs@[j]).virtual_address as int,
                    secs@[j].virtual_address + mapped_size(secs@[j]),
                ) == section_bytes(buf@, secs@[j]) by {
                if j < i {
                    let lo = secs@[j].virtual_address as int;
                    let hi = lo + mapped_size(secs@[j]);
                    assert(secs@[i as int].virtual_address + mapped_size(secs@[i as int]) <= lo || hi <= secs@[i as int].virtual_address);
                    assert(view_range(aspace@, lo, hi) =~= view_range(before, lo, hi)) by {
                        assert forall|z: int| 0 <= z < hi - lo implies view_range(aspace@, lo, hi)[z] == view_range(before, lo, hi)[z] by {
                            crate::aspace::lemma_map_elsewhere(before, va as int, chunk@, lo + z);
                        }
                    }
                }
            }
        }
        let perms = perms_from_characteristics(s.characteristics);
        let name = trim_name(&s.name);
        sections.push(Section { addr: va, size: msize, perms: Permissions(perms), name });
        i = i + 1;
    }
    proof {
        assert forall|i2: int|
            0 <= i2 < secs@.len() && not_overlaid(secs@, i2) implies view_range(
                aspace@,
                (#[trigger] secs@[i2]).virtual_address as int,
                secs@[i2].virtual_address + mapped_size(secs@[i2]),
            ) == section_bytes(buf@, secs@[i2]) by {
            assert(forall|l: int| i2 < l < i ==> (#[trigger] secs@[l]).virtual_address + mapped_size(secs@[l])
                    <= secs@[i2].virtual_address || secs@[i2].virtual_address + mapped_size(secs@[i2])
                    <= secs@[l].virtual_address);
        }
    }
    proof {
        assert forall|j: int| 0 <= j < sections@.len() implies (#[trigger] sections@[j]).addr + sections@[j].size
            <= u32::MAX - PAGE_SIZE by {
            assert(section_matches(sections@[j], secs@[j]));
            assert(section_loadable(secs@[j], buf@.len() as int));
        }
        crate::loader::lemma_max_end(sections@, u32::MAX - PAGE_SIZE);
    }
    Ok(LoadedModule { base_address: hdrs.image_base, sections, address_space: aspace })
}

/// A section name without its trailing NUL padding.
pub fn trim_name(name: &Vec<u8>) -> (r: Vec<u8>)
    ensures
        r@ == name@.take(r@.len() as int),
        forall|k: int| r@.len() <= k < name@.len() ==> name@[k] == 0,
        r@.len() > 0 ==> r@.last() != 0,
{
    let mut n = name.len();
    while n > 0 && name[n - 1] == 0
        invariant
            n <= name@.len(),
            forall|k: int| n <= k < name@.len() ==> name@[k] == 0,
        decreases n,
    {
        n = n - 1;
    }
    let mut r: Vec<u8> = Vec::with_capacity(n);
    let mut i: usize = 0;
    while i < n
        invariant
            i <= n <= name@.len(),
            r@ == name@.take(i as int),
        decreases n - i,
    {
        r.push(name[i]);
        i = i + 1;
        assert(r@ =~= name@.take(i as int));
    }
    r
}

/// Goblin parses the headers and the section table, and every section can be laid out.
pub open spec fn pe_loadable(b: Seq<u8>) -> bool {
    &&& pe_headers_of(b) is Some
    &&& pe_sections_of(b) is Some
    &&& forall|i: int|
        0 <= i < pe_sections_of(b).unwrap().len() ==> section_loadable(
            #[trigger] pe_sections_of(b).unwrap()[i],
            b.len() as int,
        )
}

/// Load a PE: read its headers and section table, and lay the sections out. The
/// architecture follows the 64-bit flag. `NotSupported` when goblin cannot parse the
/// bytes or a section cannot be laid out.
pub fn load_pe(buf: &[u8]) -> (r: Result<(LoadedModule, crate::loader::Arch, PeHeaders), LoaderError>)
    ensures
        r is Ok <==> pe_loadable(buf@),
        r matches Err(e) ==> e == LoaderError::NotSupported,
        r matches Ok((m, arch, hdrs)) ==> {
            &&& crate::loader::max_end(m.sections@) <= u32::MAX - PAGE_SIZE
            &&& forall|i: int|
                0 <= i < m.sections@.len() ==> section_matches(
                    #[trigger] m.sections@[i],
                    pe_sections_of(buf@).unwrap()[i],
                )
            &&& m.wf()
            &&& Some(hdrs) == pe_headers_of(buf@)
            &&& arch == (if hdrs.is_64 { crate::loader::Arch::X64 } else { crate::loader::Arch::X32 })
            &&& m.base_address == hdrs.image_base
            &&& m.sections@.len() == pe_sections_of(buf@).unwrap().len()
        },
{
    let hdrs = match parse_pe_headers(buf) {
        Some(h) => h,
        None => return Err(LoaderError::NotSupported),
    };
    let secs = match parse_pe_sections(buf) {
        Some(s) => s,
        None => return Err(LoaderError::NotSupported),
    };
    let m = match load_pe_layout(buf, hdrs, &secs) {
        Ok(m) => m,
        Err(e) => {
            assert(pe_sections_of(buf@).unwrap() == secs@);
            assert(!pe_loadable(buf@)) by {
                let i = choose|i: int| 0 <= i < secs@.len() && !section_loadable(#[trigger] secs@[i], buf@.len() as int);
                assert(!section_loadable(pe_sections_of(buf@).unwrap()[i], buf@.len() as int));
            }
            return Err(e);
        },
    };
    let arch = if hdrs.is_64 { crate::loader::Arch::X64 } else { crate::loader::Arch::X32 };
    Ok((m, arch, hdrs))
}

/// Load `buf` with the first loader that accepts it: as a PE when goblin parses its
/// headers, else as 32-bit shellcode. `NotSupported` when a PE's sections cannot be laid
/// out, or shellcode is too large.
pub fn load(buf: &[u8]) -> (r: Result<(LoadedModule, crate::loader::Arch, crate::loader::FileFormat), LoaderError>)
    ensures
        r is Ok <==> (if pe_headers_of(buf@) is Some {
            pe_loadable(buf@)
        } else {
            buf@.len() < u32::MAX - PAGE_SIZE
        }),
        r matches Err(e) ==> e == LoaderError::NotSupported,
        r matches Ok((m, _, _)) ==> m.wf(),
        r matches Ok((_, _, f)) ==> (f == crate::loader::FileFormat::PE <==> pe_headers_of(buf@) is Some),
        r matches Ok((m, a, f)) ==> f == crate::loader::FileFormat::Raw ==> {
            &&& a == crate::loader::Arch::X32
            &&& m.base_address == 0
            &&& crate::aspace::view_range(m.address_space@, 0, buf@.len() as int) == buf@
            &&& crate::aspace::view_mapped(m.address_space@, 0, buf@.len() as int)
            &&& m.sections@.len() == 1
            &&& m.sections@[0].addr == 0
            &&& m.sections@[0].size == buf@.len()
            &&& m.sections@[0].perms.0 == PERM_R | PERM_W | PERM_X
            &&& m.sections@[0].name@ == seq![0x72u8, 0x61u8, 0x77u8]
        },
        r matches Ok((m, a, f)) ==> f == crate::loader::FileFormat::PE ==> {
            let h = pe_headers_of(buf@).unwrap();
            let secs = pe_sections_of(buf@).unwrap();
            &&& a == (if h.is_64 { crate::loader::Arch::X64 } else { crate::loader::Arch::X32 })
            &&& m.base_address == h.image_base
            &&& m.sections@.len() == secs.len()
            &&& forall|i: int| 0 <= i < secs.len() ==> section_matches(#[trigger] m.sections@[i], secs[i])
        },
{
    if parse_pe_headers(buf).is_some() {
        let (m, arch, _) = match load_pe(buf) {
            Ok(t) => t,
            Err(e) => return Err(e),
        };
        return Ok((m, arch, crate::loader::FileFormat::PE));
    }
    if buf.len() >= u32::MAX as usize - PAGE_SIZE {
        return Err(LoaderError::NotSupported);
    }
    let m = crate::loader::load_shellcode(buf);
    Ok((m, crate::loader::Arch::X32, crate::loader::FileFormat::Raw))
}

} // verus!
