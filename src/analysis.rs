//! Analyzers that seed disassembly from what a PE says of itself: its entry point, its
//! exports, and pointers that base relocations fix up; and the FLIRT analyzer that names
//! recovered functions.
use crate::aspace::{view_mapped, view_range};
use crate::flirt::{
    display_name, filter_flirt_signatures, signature_matches, usable, FlirtSignature, FlirtSignatureSet,
    NameMatch,
};
use crate::loader::{section_contains, Permissions, Section, PERM_R};
use crate::pe::{PeExport, PeHeaders};
use crate::workspace::{le_u32, u32_from_le, Workspace, WorkspaceError};
use vstd::prelude::*;

verus! {

/// The kind of a base relocation: the top four bits of an entry.
#[derive(Debug, Clone, Copy, PartialEq, Eq, Structural)]
pub enum RelocationType {
    ImageRelBasedAbsolute,
    ImageRelBasedHigh,
    ImageRelBasedLow,
    ImageRelBasedHighLow,
    ImageRelBasedHighAdj,
    ImageRelArch1,
    ImageRelReserved,
    ImageRelArch2,
    ImageRelBasedRiscVLow12S,
    ImageRelBasedMIPSJmpAddr16,
    ImageRelBasedDir64,
}

/// The relocation type with code `c`, if there is one.
pub open spec fn reloc_type_of(c: int) -> Option<RelocationType> {
    if c == 0 {
        Some(RelocationType::ImageRelBasedAbsolute)
    } else if c == 1 {
        Some(RelocationType::ImageRelBasedHigh)
    } else if c == 2 {
        Some(RelocationType::ImageRelBasedLow)
    } else if c == 3 {
        Some(RelocationType::ImageRelBasedHighLow)
    } else if c == 4 {
        Some(RelocationType::ImageRelBasedHighAdj)
    } else if c == 5 {
        Some(RelocationType::ImageRelArch1)
    } else if c == 6 {
        Some(RelocationType::ImageRelReserved)
    } else if c == 7 {
        Some(RelocationType::ImageRelArch2)
    } else if c == 8 {
        Some(RelocationType::ImageRelBasedRiscVLow12S)
    } else if c == 9 {
        Some(RelocationType::ImageRelBasedMIPSJmpAddr16)
    } else if c == 10 {
        Some(RelocationType::ImageRelBasedDir64)
    } else {
        None
    }
}

/// A relocation: its kind, and the address of the value it fixes up.
#[derive(Debug, Clone, Copy, PartialEq, Eq, Structural)]
pub struct Reloc {
    pub typ: RelocationType,
    pub offset: u64,
}

/// Failures of the relocation analyzer.
#[derive(Debug, Clone, Copy, PartialEq, Eq, Structural)]
pub enum RelocAnalyzerError {
    InvalidRelocType,
    InvalidTargetAddress,
}

/// Decode a relocation entry of the block for page `base`: the type in the top four
/// bits, the offset into the page in the low twelve. `InvalidRelocType` for an unknown
/// type.
pub fn parse_reloc(base: u64, entry: u16) -> (r: Result<Reloc, WorkspaceError>)
    requires
        base + 0x1000 <= u64::MAX,
    ensures
        r is Ok <==> reloc_type_of(entry as int / 4096) is Some,
        r matches Ok(rl) ==> rl.typ == reloc_type_of(entry as int / 4096).unwrap() && rl.offset
            == base + entry as int % 4096,
        r matches Err(e) ==> e == WorkspaceError::InvalidRelocType,
{
    let code = entry / 4096;
    let off = entry % 4096;
    let typ = match code {
        0 => RelocationType::ImageRelBasedAbsolute,
        1 => RelocationType::ImageRelBasedHigh,
        2 => RelocationType::ImageRelBasedLow,
        3 => RelocationType::ImageRelBasedHighLow,
        4 => RelocationType::ImageRelBasedHighAdj,
        5 => RelocationType::ImageRelArch1,
        6 => RelocationType::ImageRelReserved,
        7 => RelocationType::ImageRelArch2,
        8 => RelocationType::ImageRelBasedRiscVLow12S,
        9 => RelocationType::ImageRelBasedMIPSJmpAddr16,
        10 => RelocationType::ImageRelBasedDir64,
        _ => return Err(WorkspaceError::InvalidRelocType),
    };
    Ok(Reloc { typ, offset: base + off as u64 })
}

/// The low and the high half of `e`.
pub fn split_u32(e: u32) -> (r: (u16, u16))
    ensures
        r.0 == e as int % 65536,
        r.1 == e as int / 65536,
{
    ((e % 65536) as u16, (e / 65536) as u16)
}

/// The little-endian 32-bit words of `b`, whole words only.
pub open spec fn words_of(b: Seq<u8>) -> Seq<u32> {
    Seq::new(b.len() / 4, |i: int| le_u32(b.subrange(4 * i, 4 * i + 4)))
}

/// Four bytes from `a` are mapped.
pub open spec fn readable4(ws: Workspace, a: int) -> bool {
    view_mapped(ws.module_of().address_space@, a, a + 4)
}

/// `Ok(pre + x)` for `Ok(x)`; an error stays an error.
pub open spec fn prepend(pre: Seq<Reloc>, r: Result<Seq<Reloc>, ()>) -> Result<Seq<Reloc>, ()> {
    match r {
        Ok(x) => Ok(pre + x),
        Err(_) => Err(()),
    }
}

/// The relocation that half-word `h` of the block for page `page` stands for.
pub open spec fn entry_reloc(page: int, h: int) -> Option<Reloc> {
    match reloc_type_of(h / 4096) {
        Some(t) => Some(Reloc { typ: t, offset: (page + h % 4096) as u64 }),
        None => None,
    }
}

/// The relocations of entry words `i..count` of the block at word `index` of `e`, two to a
/// word, low half first; reading stops before the first one whose target cannot be read
/// as four bytes. An error at an entry of unknown type reached before that.
pub open spec fn block_relocs(ws: Workspace, e: Seq<u32>, index: int, count: int, page: int, i: int) -> Result<
    Seq<Reloc>,
    (),
>
    decreases count - i,
{
    if i >= count || index + i >= e.len() || i < 0 {
        Ok(Seq::empty())
    } else {
        let w = e[index + i] as int;
        match entry_reloc(page, w % 65536) {
            None => Err(()),
            Some(r1) => if !readable4(ws, r1.offset as int) {
                Ok(Seq::empty())
            } else {
                match entry_reloc(page, w / 65536) {
                    None => Err(()),
                    Some(r2) => if !readable4(ws, r2.offset as int) {
                        Ok(seq![r1])
                    } else {
                        prepend(seq![r1, r2], block_relocs(ws, e, index, count, page, i + 1))
                    },
                }
            },
        }
    }
}

/// The relocations of the blocks from word `index` of `e` on: each block a page address,
/// a size in bytes, and entry words; a zero page or a size under one word ends the list.
pub open spec fn dir_relocs(ws: Workspace, e: Seq<u32>, index: int) -> Result<Seq<Reloc>, ()>
    decreases e.len() - index,
{
    if index < 0 || index >= e.len() || e.len() - index < 2 {
        Ok(Seq::empty())
    } else {
        let page = e[index] as int;
        let count = e[index + 1] as int / 4;
        if page == 0 || count == 0 {
            Ok(Seq::empty())
        } else {
            match block_relocs(ws, e, index, count, page, 2) {
                Err(_) => Err(()),
                Ok(b) => if count > e.len() - index {
                    Ok(b)
                } else {
                    prepend(b, dir_relocs(ws, e, index + count))
                },
            }
        }
    }
}

/// The relocations of one block: page `page`, entry words `[index + 2, index + count)`.
fn read_block(ws: &Workspace, e: &Vec<u32>, index: usize, count: usize, page: u32) -> (r: Result<
    Vec<Reloc>,
    WorkspaceError,
>)
    requires
        ws.wf(),
        index <= e@.len(),
    ensures
        r matches Ok(v) ==> block_relocs(*ws, e@, index as int, count as int, page as int, 2) == Ok::<Seq<Reloc>, ()>(v@),
        r is Err ==> block_relocs(*ws, e@, index as int, count as int, page as int, 2) is Err,
        r matches Err(x) ==> x == WorkspaceError::InvalidRelocType,
{
    proof {
        assert(PERM_R & crate::loader::PERM_X == 0) by (bit_vector);
        assert(PERM_R & PERM_R != 0) by (bit_vector);
    }
    let mut out: Vec<Reloc> = Vec::new();
    let mut i: usize = 2;
    while i < count && i < e.len() - index
        invariant
            ws.wf(),
            index <= e@.len(),
            2 <= i,
            PERM_R & crate::loader::PERM_X == 0,
            PERM_R & PERM_R != 0,
            prepend(out@, block_relocs(*ws, e@, index as int, count as int, page as int, i as int))
                == block_relocs(*ws, e@, index as int, count as int, page as int, 2),
        decreases count - i,
    {
        let ghost b_i = block_relocs(*ws, e@, index as int, count as int, page as int, i as int);
        let (m, hi) = split_u32(e[index + i]);
        let r1 = match parse_reloc(page as u64, m) {
            Ok(r) => r,
            Err(x) => {
                return Err(x);
            },
        };
        assert(entry_reloc(page as int, m as int) == Some(r1));
        if !ws.probe(r1.offset, 4, Permissions(PERM_R)) {
            assert(!readable4(*ws, r1.offset as int));
            assert(b_i == Ok::<Seq<Reloc>, ()>(Seq::empty()));
            assert(out@ + Seq::<Reloc>::empty() =~= out@);
            assert(prepend(out@, b_i) == Ok::<Seq<Reloc>, ()>(out@));
            return Ok(out);
        }
        let r2 = match parse_reloc(page as u64, hi) {
            Ok(r) => r,
            Err(x) => {
                return Err(x);
            },
        };
        assert(entry_reloc(page as int, hi as int) == Some(r2));
        assert(readable4(*ws, r1.offset as int));
        if !ws.probe(r2.offset, 4, Permissions(PERM_R)) {
            let ghost out0 = out@;
            out.push(r1);
            assert(!readable4(*ws, r2.offset as int));
            assert(b_i == Ok::<Seq<Reloc>, ()>(seq![r1]));
            assert(out0 + seq![r1] =~= out@);
            assert(prepend(out0, b_i) == Ok::<Seq<Reloc>, ()>(out@));
            return Ok(out);
        }
        let ghost out0 = out@;
        out.push(r1);
        out.push(r2);
        proof {
            let rest = block_relocs(*ws, e@, index as int, count as int, page as int, i + 1);
            assert(b_i == prepend(seq![r1, r2], rest));
            assert(out@ =~= out0 + seq![r1, r2]);
            match rest {
                Ok(x) => {
                    assert(out0 + (seq![r1, r2] + x) =~= out@ + x);
                },
                Err(_) => {},
            }
        }
        i = i + 1;
    }
    proof {
        assert(block_relocs(*ws, e@, index as int, count as int, page as int, i as int) == Ok::<Seq<Reloc>, ()>(Seq::empty()));
        assert(out@ + Seq::<Reloc>::empty() =~= out@);
    }
    Ok(out)
}

/// Read the base-relocation directory at `[dir_rva, dir_rva + dir_size)`: blocks of a
/// page address, a block size, and 16-bit entries, until a zero page address or a block
/// size under four bytes; the next block starts `size / 4` words on. Within a block, reading stops at the first entry whose
/// target cannot be read as four bytes. `InvalidAddress` when the directory is not
/// mapped, `InvalidRelocType` for an entry of unknown type.
pub fn get_relocs(ws: &Workspace, dir_rva: u64, dir_size: u32) -> (r: Result<Vec<Reloc>, WorkspaceError>)
    requires
        ws.wf(),
        dir_rva + dir_size <= u32::MAX,
    ensures
        ({
            let v = ws.module_of().address_space@;
            let mapped = view_mapped(v, dir_rva as int, dir_rva + dir_size);
            let e = words_of(view_range(v, dir_rva as int, dir_rva + dir_size));
            &&& (r == Err::<Vec<Reloc>, WorkspaceError>(WorkspaceError::InvalidAddress) <==> !mapped)
            &&& (mapped ==> (r is Ok <==> dir_relocs(*ws, e, 0) is Ok))
            &&& (r matches Ok(rs) ==> dir_relocs(*ws, e, 0) == Ok::<Seq<Reloc>, ()>(rs@))
            &&& (r matches Err(x) ==> x == WorkspaceError::InvalidAddress || x == WorkspaceError::InvalidRelocType)
        }),
{
    let buf = ws.read_bytes(dir_rva, dir_size as usize)?;
    let ghost all = words_of(buf@);
    let bl = buf.len();
    let n = bl / 4;
    let mut entries: Vec<u32> = Vec::with_capacity(n);
    let mut w: usize = 0;
    while w < n
        invariant
            bl == buf@.len(),
            n == bl / 4,
            all == words_of(buf@),
            w <= n,
            entries@ == all.take(w as int),
        decreases n - w,
    {
        let b = crate::flirt::slice_of(buf.as_slice(), 4 * w, 4 * w + 4);
        entries.push(u32_from_le(b.as_slice()));
        assert(entries@ =~= all.take(w + 1));
        w = w + 1;
    }
    assert(entries@ =~= all);
    let mut out: Vec<Reloc> = Vec::new();
    let mut index: usize = 0;
    assert(prepend(out@, dir_relocs(*ws, entries@, 0)) == dir_relocs(*ws, entries@, 0)) by {
        match dir_relocs(*ws, entries@, 0) {
            Ok(x) => {
                assert(Seq::<Reloc>::empty() + x =~= x);
            },
            Err(_) => {},
        }
    }
    while index < entries.len() && entries.len() - index >= 2
        invariant
            ws.wf(),
            index <= entries@.len(),
            entries@ == words_of(view_range(ws.module_of().address_space@, dir_rva as int, dir_rva + dir_size)),
            view_mapped(ws.module_of().address_space@, dir_rva as int, dir_rva + dir_size),
            prepend(out@, dir_relocs(*ws, entries@, index as int)) == dir_relocs(*ws, entries@, 0),
        decreases entries@.len() - index,
    {
        let ghost d_i = dir_relocs(*ws, entries@, index as int);
        let page_rva = entries[index];
        let block_size = entries[index + 1];
        let count = (block_size / 4) as usize;
        if page_rva == 0 || count == 0 {
            assert(d_i == Ok::<Seq<Reloc>, ()>(Seq::empty()));
            assert(out@ + Seq::<Reloc>::empty() =~= out@);
            return Ok(out);
        }
        let b = match read_block(ws, &entries, index, count, page_rva) {
            Ok(b) => b,
            Err(x) => {
                return Err(x);
            },
        };
        let ghost out0 = out@;
        let mut k: usize = 0;
        while k < b.len()
            invariant
                k <= b@.len(),
                out@ == out0 + b@.take(k as int),
            decreases b@.len() - k,
        {
            out.push(b[k]);
            k = k + 1;
            assert(out@ =~= out0 + b@.take(k as int));
        }
        assert(b@.take(k as int) =~= b@);
        if count > entries.len() - index {
            assert(d_i == Ok::<Seq<Reloc>, ()>(b@));
            return Ok(out);
        }
        proof {
            let rest = dir_relocs(*ws, entries@, index + count);
            assert(d_i == prepend(b@, rest));
            match rest {
                Ok(x) => {
                    assert(out0 + (b@ + x) =~= out@ + x);
                },
                Err(_) => {},
            }
        }
        index = index + count;
    }
    proof {
        assert(dir_relocs(*ws, entries@, index as int) == Ok::<Seq<Reloc>, ()>(Seq::empty()));
        assert(out@ + Seq::<Reloc>::empty() =~= out@);
    }
    Ok(out)
}

/// How far back from an address an instruction that covers it may start.
pub const MAX_INSN_BACKTRACK: u64 = 0x10;

/// The start of the first section that holds `a`, or `0` when none does.
pub open spec fn section_start(sections: Seq<Section>, a: int) -> int
    decreases sections.len(),
{
    if sections.len() == 0 {
        0
    } else if section_contains(sections[0], a) {
        sections[0].addr as int
    } else {
        section_start(sections.drop_first(), a)
    }
}

proof fn lemma_section_start_below(sections: Seq<Section>, a: int)
    requires
        a >= 0,
    ensures
        0 <= section_start(sections, a) <= a,
    decreases sections.len(),
{
    if sections.len() > 0 && !section_contains(sections[0], a) {
        lemma_section_start_below(sections.drop_first(), a);
    }
}

/// Where the search for an instruction that covers `rva` begins: `0x10` bytes back, but
/// not before the start of the section that holds `rva`.
pub open spec fn search_start(ws: Workspace, rva: int) -> int {
    let s = section_start(ws.module_of().sections@, rva);
    if rva - MAX_INSN_BACKTRACK > s { rva - MAX_INSN_BACKTRACK } else { s }
}

/// Some recorded instruction starting in `[search_start(rva), rva]` reaches past `rva`.
pub open spec fn covered_by_insn(ws: Workspace, rva: int) -> bool {
    exists|i: int|
        search_start(ws, rva) <= i <= rva && ws.insn_len(i) != 0 && i + #[trigger] ws.insn_len(i) > rva
}

/// The start of the first section of `ws` that holds `rva`, or `0`.
fn find_section_start(ws: &Workspace, rva: u64) -> (r: u64)
    ensures
        r == section_start(ws.module_of().sections@, rva as int),
{
    let sections = &ws.module().sections;
    let ghost all = sections@;
    let mut i: usize = 0;
    assert(all.subrange(0, all.len() as int) =~= all);
    while i < sections.len()
        invariant
            all == sections@,
            all == ws.module_of().sections@,
            i <= all.len(),
            section_start(all, rva as int) == section_start(all.subrange(i as int, all.len() as int), rva as int),
        decreases all.len() - i,
    {
        let ghost rest = all.subrange(i as int, all.len() as int);
        assert(rest.drop_first() =~= all.subrange(i + 1, all.len() as int));
        assert(rest[0] == all[i as int]);
        if sections[i].contains(rva) {
            return sections[i].addr;
        }
        i = i + 1;
    }
    0
}

/// Is `rva` inside an instruction already recorded?
pub fn is_in_insn(ws: &Workspace, rva: u64) -> (r: bool)
    requires
        ws.wf(),
    ensures
        r == covered_by_insn(*ws, rva as int),
{
    let sstart = find_section_start(ws, rva);
    proof {
        lemma_section_start_below(ws.module_of().sections@, rva as int);
    }
    let start = if rva >= MAX_INSN_BACKTRACK && rva - MAX_INSN_BACKTRACK > sstart { rva - MAX_INSN_BACKTRACK } else { sstart };
    assert(start == search_start(*ws, rva as int));
    let mut i = start;
    loop
        invariant
            ws.wf(),
            start <= i <= rva,
            start == search_start(*ws, rva as int),
            forall|j: int| start <= j < i ==> !(ws.insn_len(j) != 0 && j + #[trigger] ws.insn_len(j) > rva),
        decreases rva - i,
    {
        let len = ws.get_insn_length(i);
        if len != 0 {
            proof {
                crate::workspace::lemma_insn_bounds(ws, i as int);
            }
            if i + len as u64 > rva {
                assert(ws.insn_len(i as int) != 0 && i + ws.insn_len(i as int) > rva);
                return true;
            }
        }
        if i == rva {
            return false;
        }
        i = i + 1;
    }
}

/// The pointer-sized value at `a` points at mapped memory of the module.
pub open spec fn pointer_at(ws: Workspace, a: int) -> bool {
    let v = ws.module_of().address_space@;
    let n = ws.arch_of().spec_pointer_size() as int;
    let p = crate::workspace::le_value(view_range(v, a, a + n)) as int;
    let base = ws.module_of().base_address as int;
    view_mapped(v, a, a + n) && p >= base && p - base < u64::MAX && view_mapped(v, p - base, p - base + 1)
}

/// The four bytes at `a` are mapped and zero.
pub open spec fn zero_at(ws: Workspace, a: int) -> bool {
    let v = ws.module_of().address_space@;
    view_mapped(v, a, a + 4) && le_u32(view_range(v, a, a + 4)) == 0
}

/// Where relocation `rl` sends disassembly: the address in executable code that the
/// pointer it fixes up points at, if its type is 32-bit or 64-bit, the pointer is mapped,
/// and the address is neither zero-filled nor itself a pointer into the module.
pub open spec fn reloc_target(ws: Workspace, rl: Reloc) -> Option<u64> {
    let v = ws.module_of().address_space@;
    let n = ws.arch_of().spec_pointer_size() as int;
    let p = crate::workspace::le_value(view_range(v, rl.offset as int, rl.offset + n)) as int;
    let t = p - ws.module_of().base_address;
    if (rl.typ == RelocationType::ImageRelBasedHighLow || rl.typ == RelocationType::ImageRelBasedDir64)
        && view_mapped(v, rl.offset as int, rl.offset + n) && t >= 0 && ws.is_exec(t) && t + 8
        <= u64::MAX && !zero_at(ws, t) && !pointer_at(ws, t) {
        Some(t as u64)
    } else {
        None
    }
}

/// Does `rva` hold a pointer-sized value that points at readable memory of the module?
pub fn is_ptr(ws: &Workspace, rva: u64) -> (r: bool)
    requires
        ws.wf(),
        rva + 8 <= u64::MAX,
    ensures
        r == pointer_at(*ws, rva as int),
{
    proof {
        assert(PERM_R & crate::loader::PERM_X == 0) by (bit_vector);
        assert(PERM_R & PERM_R != 0) by (bit_vector);
    }
    match ws.read_va(rva) {
        Ok(ptr) => match ws.rva(ptr) {
            Some(p) => p < u64::MAX && ws.probe(p, 1, Permissions(PERM_R)),
            None => false,
        },
        Err(_) => false,
    }
}

/// Are the four bytes at `rva` readable and all zero?
pub fn is_zero(ws: &Workspace, rva: u64) -> (r: bool)
    requires
        ws.wf(),
        rva + 4 <= u64::MAX,
    ensures
        r == zero_at(*ws, rva as int),
{
    match ws.read_u32(rva) {
        Ok(v) => v == 0,
        Err(_) => false,
    }
}

/// Seeds disassembly from the pointers that base relocations fix up.
pub struct RelocAnalyzer {}

impl RelocAnalyzer {
    pub fn new() -> (r: RelocAnalyzer) {
        RelocAnalyzer {}
    }

    /// The distinct addresses in executable code that `relocs` of a supported type
    /// (32-bit or 64-bit) point at, in the order first met, leaving out those that hold
    /// zero or themselves a pointer into the module.
    pub fn targets(&self, ws: &Workspace, relocs: &Vec<Reloc>) -> (r: Vec<u64>)
        requires
            ws.wf(),
            forall|k: int| 0 <= k < relocs@.len() ==> (#[trigger] relocs@[k]).offset + 8 <= u64::MAX,
        ensures
            forall|t: u64| #[trigger] r@.contains(t) <==> exists|k: int|
                0 <= k < relocs@.len() && reloc_target(*ws, #[trigger] relocs@[k]) == Some(t),
            forall|k: int, l: int| 0 <= k < l < r@.len() ==> r@[k] != r@[l],
    {
        let mut out: Vec<u64> = Vec::new();
        let mut k: usize = 0;
        while k < relocs.len()
            invariant
                ws.wf(),
                k <= relocs@.len(),
                forall|j: int| 0 <= j < relocs@.len() ==> (#[trigger] relocs@[j]).offset + 8 <= u64::MAX,
                forall|t: u64| #[trigger] out@.contains(t) <==> exists|j: int|
                    0 <= j < k && reloc_target(*ws, #[trigger] relocs@[j]) == Some(t),
                forall|j: int, l: int| 0 <= j < l < out@.len() ==> out@[j] != out@[l],
            decreases relocs@.len() - k,
        {
            let rl = relocs[k];
            let found = self.target_of(ws, rl);
            assert(found == reloc_target(*ws, relocs@[k as int]));
            let ghost out0 = out@;
            if let Some(target) = found {
                let mut seen = false;
                let mut j: usize = 0;
                while j < out.len()
                    invariant
                        j <= out@.len(),
                        seen == exists|z: int| 0 <= z < j && out@[z] == target,
                    decreases out@.len() - j,
                {
                    if out[j] == target {
                        seen = true;
                    }
                    j = j + 1;
                }
                if !seen {
                    out.push(target);
                }
                proof {
                    if seen {
                        let z = choose|z: int| 0 <= z < out0.len() && out0[z] == target;
                        assert(out0.contains(target));
                    }
                }
            }
            proof {
                assert forall|t: u64| #[trigger] out@.contains(t) <==> exists|j: int|
                    0 <= j < k + 1 && reloc_target(*ws, #[trigger] relocs@[j]) == Some(t) by {
                    if out@ != out0 {
                        crate::nfa::lemma_push_contains(out0, found.unwrap(), t);
                    }
                    if exists|j: int| 0 <= j < k + 1 && reloc_target(*ws, #[trigger] relocs@[j]) == Some(t) {
                        let j = choose|j: int| 0 <= j < k + 1 && reloc_target(*ws, #[trigger] relocs@[j]) == Some(t);
                        if j < k {
                            assert(out0.contains(t));
                        }
                    }
                    if out0.contains(t) {
                        assert(exists|j: int| 0 <= j < k && reloc_target(*ws, #[trigger] relocs@[j]) == Some(t));
                    }
                }
            }
            k = k + 1;
        }
        out
    }

    /// Where `rl` sends disassembly, if anywhere.
    fn target_of(&self, ws: &Workspace, rl: Reloc) -> (r: Option<u64>)
        requires
            ws.wf(),
            rl.offset + 8 <= u64::MAX,
        ensures
            r == reloc_target(*ws, rl),
    {
        match rl.typ {
            RelocationType::ImageRelBasedHighLow => {},
            RelocationType::ImageRelBasedDir64 => {},
            _ => {
                return None;
            },
        }
        let ptr = match ws.read_va(rl.offset) {
            Ok(p) => p,
            Err(_) => {
                return None;
            },
        };
        let target = match ws.rva(ptr) {
            Some(t) => t,
            None => {
                return None;
            },
        };
        if !ws.is_executable(target) || target > u64::MAX - 8 {
            return None;
        }
        if is_zero(ws, target) || is_ptr(ws, target) {
            return None;
        }
        Some(target)
    }

    /// Queue `target` for disassembly unless an instruction recorded already covers it.
    /// True when it was queued.
    pub fn seed(&self, ws: &mut Workspace, target: u64) -> (r: bool)
        requires
            old(ws).wf(),
        ensures
            final(ws).wf(),
            r == (!covered_by_insn(*old(ws), target as int) && old(ws).is_exec(target as int)),
            r ==> final(ws).pending_view() == old(ws).pending_view().push(target),
            !r ==> final(ws).pending_view() == old(ws).pending_view(),
            forall|a: int| #[trigger] final(ws).insn_len(a) == old(ws).insn_len(a),
            final(ws).functions_view() == old(ws).functions_view(),
            final(ws).symbols_view() == old(ws).symbols_view(),
    {
        if is_in_insn(ws, target) {
            return false;
        }
        ws.make_insn(target).is_ok()
    }
}

/// Seeds disassembly at the entry point of a PE.
pub struct EntryPointAnalyzer {}

/// The symbol name of the entry point.
pub open spec fn entry_name() -> Seq<u8> {
    seq![0x65u8, 0x6eu8, 0x74u8, 0x72u8, 0x79u8]
}

impl EntryPointAnalyzer {
    pub fn new() -> (r: EntryPointAnalyzer) {
        EntryPointAnalyzer {}
    }

    /// Name the entry point `entry` and make it a function. `InvalidAddress` when it
    /// is not in executable code; `SymbolExists` when it already has a name.
    pub fn analyze(&self, ws: &mut Workspace, hdrs: PeHeaders) -> (r: Result<(), WorkspaceError>)
        requires
            old(ws).wf(),
        ensures
            final(ws).wf(),
            r is Ok ==> final(ws).symbols_view() == old(ws).symbols_view().push((hdrs.entry as u64, entry_name())),
            r is Ok ==> final(ws).functions_view().contains(hdrs.entry as u64),
            r is Ok ==> final(ws).pending_view() == old(ws).pending_view().push(hdrs.entry as u64),
            !old(ws).is_exec(hdrs.entry as int) ==> r == Err::<(), WorkspaceError>(WorkspaceError::InvalidAddress),
            old(ws).is_exec(hdrs.entry as int) && !has_symbol(*old(ws), hdrs.entry as u64) ==> r is Ok,
            old(ws).is_exec(hdrs.entry as int) && has_symbol(*old(ws), hdrs.entry as u64) ==> r == Err::<(), WorkspaceError>(WorkspaceError::SymbolExists),
            final(ws).module_of() == old(ws).module_of(),
            forall|a: int| #[trigger] final(ws).is_exec(a) == old(ws).is_exec(a),
            forall|f: u64| old(ws).functions_view().contains(f) ==> #[trigger] final(ws).functions_view().contains(f),
            forall|a: int| #[trigger] final(ws).insn_len(a) == old(ws).insn_len(a),
            forall|x: crate::xref::Xref| #[trigger] final(ws).has_xref(x) == old(ws).has_xref(x),
            final(ws).arch_of() == old(ws).arch_of(),
            r is Err ==> final(ws).pending_view() == old(ws).pending_view(),
    {
        let entry = hdrs.entry as u64;
        if !ws.is_executable(entry) {
            return Err(WorkspaceError::InvalidAddress);
        }
        let mut name: Vec<u8> = Vec::new();
        name.push(0x65);
        name.push(0x6e);
        name.push(0x74);
        name.push(0x72);
        name.push(0x79);
        assert(name@ =~= entry_name());
        let ghost f0 = ws.functions_view();
        match ws.make_symbol(entry, name) {
            Ok(()) => {},
            Err(e) => return Err(e),
        }
        let r = ws.make_function(entry);
        proof {
            assert forall|f: u64| f0.contains(f) implies #[trigger] ws.functions_view().contains(f) by {
                if ws.functions_view() != f0 {
                    crate::nfa::lemma_push_contains(f0, entry, f);
                }
            }
        }
        r
    }
}

/// Seeds disassembly at the named exports of a PE that lie in executable code.
pub struct ExportsAnalyzer {}

impl ExportsAnalyzer {
    pub fn new() -> (r: ExportsAnalyzer) {
        ExportsAnalyzer {}
    }

    /// Name each named export in executable code and make it a function; an export
    /// whose address already has a name keeps that name.
    pub fn analyze(&self, ws: &mut Workspace, exports: &Vec<PeExport>)
        requires
            old(ws).wf(),
        ensures
            final(ws).wf(),
            final(ws).module_of() == old(ws).module_of(),
            forall|a: int| #[trigger] final(ws).is_exec(a) == old(ws).is_exec(a),
            forall|f: u64| old(ws).functions_view().contains(f) ==> #[trigger] final(ws).functions_view().contains(f),
            forall|a: int| #[trigger] final(ws).insn_len(a) == old(ws).insn_len(a),
            forall|x: crate::xref::Xref| #[trigger] final(ws).has_xref(x) == old(ws).has_xref(x),
            final(ws).arch_of() == old(ws).arch_of(),
            forall|p: u64| old(ws).pending_view().contains(p) ==> #[trigger] final(ws).pending_view().contains(p),
            final(ws).symbols_view().len() >= old(ws).symbols_view().len(),
            final(ws).symbols_view().take(old(ws).symbols_view().len() as int) == old(ws).symbols_view(),
            forall|k: int|
                0 <= k < exports@.len() && (#[trigger] exports@[k]).name is Some && old(ws).is_exec(exports@[k].rva as int)
                    ==> final(ws).functions_view().contains(exports@[k].rva) && has_symbol(*final(ws), exports@[k].rva),
            forall|k: int|
                0 <= k < exports@.len() && (#[trigger] exports@[k]).name is Some && old(ws).is_exec(exports@[k].rva as int)
                    && !has_symbol(*old(ws), exports@[k].rva) && (forall|j: int| 0 <= j < k ==> exports@[j].rva != exports@[k].rva)
                    ==> final(ws).symbols_view().contains((exports@[k].rva, exports@[k].name.unwrap()@)),
    {
        let ghost w0 = *ws;
        let mut k: usize = 0;
        while k < exports.len()
            invariant
                ws.wf(),
                k <= exports@.len(),
                ws.module_of() == w0.module_of(),
                w0 == *old(ws),
                forall|a: int| #[trigger] ws.insn_len(a) == w0.insn_len(a),
                forall|x: crate::xref::Xref| #[trigger] ws.has_xref(x) == w0.has_xref(x),
                ws.arch_of() == w0.arch_of(),
                forall|p: u64| w0.pending_view().contains(p) ==> #[trigger] ws.pending_view().contains(p),
                forall|a: int| #[trigger] ws.is_exec(a) == w0.is_exec(a),
                forall|f: u64| w0.functions_view().contains(f) ==> #[trigger] ws.functions_view().contains(f),
                ws.symbols_view().len() >= w0.symbols_view().len(),
                ws.symbols_view().take(w0.symbols_view().len() as int) == w0.symbols_view(),
                forall|j: int|
                    0 <= j < k && (#[trigger] exports@[j]).name is Some && w0.is_exec(exports@[j].rva as int)
                        ==> ws.functions_view().contains(exports@[j].rva) && has_symbol(*ws, exports@[j].rva),
                forall|a: u64| #[trigger] has_symbol(*ws, a) && !has_symbol(w0, a) ==> exists|j: int|
                    0 <= j < k && exports@[j].rva == a && exports@[j].name is Some && ws.symbols_view().contains((a, exports@[j].name.unwrap()@))
                        && forall|i: int| 0 <= i < j ==> !(exports@[i].rva == a && exports@[i].name is Some && w0.is_exec(a as int)),
            decreases exports@.len() - k,
        {
            let e = &exports[k];
            let ghost s0 = ws.symbols_view();
            let ghost f0 = ws.functions_view();
            let ghost p0 = ws.pending_view();
            let ghost ws0 = *ws;
            if let Some(name) = &e.name {
                if ws.is_executable(e.rva) {
                    let copy = crate::flirt::slice_of(name.as_slice(), 0, name.len());
                    let _ = ws.make_symbol(e.rva, copy);
                    let _ = ws.make_function(e.rva);
                }
            }
            proof {
                lemma_symbols_grow(ws0, *ws);
                assert forall|p: u64| w0.pending_view().contains(p) implies #[trigger] ws.pending_view().contains(p) by {
                    assert(p0.contains(p));
                    if ws.pending_view() != p0 {
                        crate::nfa::lemma_push_contains(p0, e.rva, p);
                    }
                }
                assert forall|f: u64| w0.functions_view().contains(f) implies #[trigger] ws.functions_view().contains(f) by {
                    assert(f0.contains(f));
                    if ws.functions_view() != f0 {
                        crate::nfa::lemma_push_contains(f0, e.rva, f);
                    }
                }
                assert(ws.symbols_view().take(w0.symbols_view().len() as int) =~= w0.symbols_view()) by {
                    assert forall|j: int| 0 <= j < w0.symbols_view().len() implies ws.symbols_view()[j] == w0.symbols_view()[j] by {
                        assert(s0[j] == w0.symbols_view()[j]);
                        assert(ws.symbols_view()[j] == s0[j]);
                    }
                }
                assert forall|j: int|
                    0 <= j < k + 1 && (#[trigger] exports@[j]).name is Some && w0.is_exec(exports@[j].rva as int)
                        implies ws.functions_view().contains(exports@[j].rva) && has_symbol(*ws, exports@[j].rva) by {
                    if j < k {
                        assert(f0.contains(exports@[j].rva));
                        if ws.functions_view() != f0 {
                            crate::nfa::lemma_push_contains(f0, e.rva, exports@[j].rva);
                        }
                        assert(has_symbol(ws0, exports@[j].rva));
                    } else {
                        if ws.symbols_view() != s0 {
                            assert(ws.symbols_view()[s0.len() as int].0 == e.rva);
                        } else {
                            assert(has_symbol(ws0, e.rva));
                        }
                    }
                }
                assert forall|a: u64| #[trigger] has_symbol(*ws, a) && !has_symbol(w0, a) implies exists|j: int|
                    0 <= j < k + 1 && exports@[j].rva == a && exports@[j].name is Some && ws.symbols_view().contains((a, exports@[j].name.unwrap()@))
                        && forall|i: int| 0 <= i < j ==> !(exports@[i].rva == a && exports@[i].name is Some && w0.is_exec(a as int)) by {
                    if has_symbol(ws0, a) {
                        let j = choose|j: int| 0 <= j < k && exports@[j].rva == a && exports@[j].name is Some && ws0.symbols_view().contains((a, exports@[j].name.unwrap()@))
                            && forall|i: int| 0 <= i < j ==> !(exports@[i].rva == a && exports@[i].name is Some && w0.is_exec(a as int));
                        let z = choose|z: int| 0 <= z < s0.len() && s0[z] == (a, exports@[j].name.unwrap()@);
                        assert(ws.symbols_view()[z] == s0[z]);
                    } else {
                        assert(ws.symbols_view() != s0);
                        assert(ws.symbols_view()[s0.len() as int] == (e.rva, e.name.unwrap()@));
                        assert(ws.symbols_view().contains((a, exports@[k as int].name.unwrap()@)));
                        assert forall|i: int| 0 <= i < k implies !(exports@[i].rva == a && exports@[i].name is Some && w0.is_exec(a as int)) by {
                            if exports@[i].rva == a && exports@[i].name is Some && w0.is_exec(a as int) {
                                assert(has_symbol(ws0, exports@[i].rva));
                            }
                        }
                    }
                }
            }
            k = k + 1;
        }
        proof {
            assert forall|k2: int|
                0 <= k2 < exports@.len() && (#[trigger] exports@[k2]).name is Some && w0.is_exec(exports@[k2].rva as int)
                    && !has_symbol(w0, exports@[k2].rva) && (forall|j: int| 0 <= j < k2 ==> exports@[j].rva != exports@[k2].rva)
                    implies ws.symbols_view().contains((exports@[k2].rva, exports@[k2].name.unwrap()@)) by {
                let a = exports@[k2].rva;
                assert(has_symbol(*ws, a));
                let j = choose|j: int| 0 <= j < k && exports@[j].rva == a && exports@[j].name is Some && ws.symbols_view().contains((a, exports@[j].name.unwrap()@))
                    && forall|i: int| 0 <= i < j ==> !(exports@[i].rva == a && exports@[i].name is Some && w0.is_exec(a as int));
                assert(j == k2);
            }
        }
    }
}

/// Some symbol of `ws` names address `a`.
pub open spec fn has_symbol(ws: Workspace, a: u64) -> bool {
    exists|j: int| 0 <= j < ws.symbols_view().len() && (#[trigger] ws.symbols_view()[j]).0 == a
}

/// Symbols only ever grow: what was named stays named.
proof fn lemma_symbols_grow(before: Workspace, after: Workspace)
    requires
        after.symbols_view().len() >= before.symbols_view().len(),
        forall|j: int| 0 <= j < before.symbols_view().len() ==> after.symbols_view()[j] == before.symbols_view()[j],
    ensures
        forall|a: u64| has_symbol(before, a) ==> #[trigger] has_symbol(after, a),
{
    assert forall|a: u64| has_symbol(before, a) implies #[trigger] has_symbol(after, a) by {
        let j = choose|j: int| 0 <= j < before.symbols_view().len() && (#[trigger] before.symbols_view()[j]).0 == a;
        assert(after.symbols_view()[j] == before.symbols_view()[j]);
    }
}

/// Where FLIRT signature files are looked for.
#[derive(Debug)]
pub struct FlirtConfig {
    pub pat_dir: String,
    pub sig_dir: String,
}

/// Longest run of bytes that the FLIRT analyzer reads from the start of a function.
pub const FLIRT_WINDOW: usize = 0xFF;

/// The length of the longest mapped run of at most `max` bytes from `a`.
pub open spec fn readable_len(v: Seq<Option<Seq<u8>>>, a: int, max: nat) -> nat
    decreases max,
{
    if max == 0 {
        0
    } else if view_mapped(v, a, a + max) {
        max
    } else {
        readable_len(v, a, (max - 1) as nat)
    }
}

/// The bytes from `a` on, as many as are mapped, at most `max`.
pub fn read_window(ws: &Workspace, a: u64, max: usize) -> (r: Vec<u8>)
    requires
        ws.wf(),
        a + max <= u64::MAX,
    ensures
        r@.len() == readable_len(ws.module_of().address_space@, a as int, max as nat),
        r@ == view_range(ws.module_of().address_space@, a as int, a + r@.len()),
{
    let mut n = max;
    while n > 0
        invariant
            ws.wf(),
            n <= max,
            a + max <= u64::MAX,
            readable_len(ws.module_of().address_space@, a as int, max as nat) == readable_len(
                ws.module_of().address_space@,
                a as int,
                n as nat,
            ),
        decreases n,
    {
        match ws.read_bytes(a, n) {
            Ok(v) => {
                return v;
            },
            Err(_) => {},
        }
        n = n - 1;
    }
    Vec::new()
}

/// Names recovered functions by their FLIRT signatures.
pub struct FlirtAnalyzer {
    sigs: FlirtSignatureSet,
}

impl FlirtAnalyzer {
    /// The signatures in use.
    pub closed spec fn signatures(&self) -> Seq<FlirtSignature> {
        self.sigs.signatures()
    }

    /// The signature set is built, and each signature in it is usable.
    pub closed spec fn wf(&self) -> bool {
        &&& self.sigs.wf()
        &&& forall|i: int| 0 <= i < self.signatures().len() ==> usable(#[trigger] self.signatures()[i])
    }

    /// An analyzer over the usable ones of `sigs`.
    pub fn new(sigs: Vec<FlirtSignature>) -> (r: FlirtAnalyzer)
        ensures
            r.wf(),
            r.signatures() == sigs@.filter(|s: FlirtSignature| usable(s)),
    {
        let ghost all = sigs@;
        let kept = filter_flirt_signatures(sigs);
        proof {
            assert forall|i: int| 0 <= i < kept@.len() implies usable(#[trigger] kept@[i]) by {
                all.lemma_filter_pred(|s: FlirtSignature| usable(s), i);
            }
        }
        FlirtAnalyzer { sigs: FlirtSignatureSet::with_signatures(kept) }
    }

    /// What the signatures say of the function at `fva`: the bytes read are as many as
    /// are mapped from `fva`, at most `FLIRT_WINDOW`.
    pub fn identify(&self, ws: &Workspace, fva: u64) -> (r: NameMatch)
        requires
            self.wf(),
            ws.wf(),
            fva + FLIRT_WINDOW <= u64::MAX,
        ensures
            ({
                let v = ws.module_of().address_space@;
                let b = view_range(v, fva as int, fva + readable_len(v, fva as int, FLIRT_WINDOW as nat));
                &&& r is NoMatch <==> !exists|i: int|
                    0 <= i < self.signatures().len() && signature_matches(
                        #[trigger] self.signatures()[i],
                        b,
                    )
                &&& r is Ambiguous <==> exists|i: int, j: int|
                    0 <= i < self.signatures().len() && 0 <= j < self.signatures().len()
                        && signature_matches(#[trigger] self.signatures()[i], b) && signature_matches(
                        #[trigger] self.signatures()[j],
                        b,
                    ) && display_name(self.signatures()[i].names@) != display_name(
                        self.signatures()[j].names@,
                    )
                &&& r matches NameMatch::Unique(n) ==> forall|i: int|
                    0 <= i < self.signatures().len() && signature_matches(
                        #[trigger] self.signatures()[i],
                        b,
                    ) ==> display_name(self.signatures()[i].names@) == Some(n@)
            }),
    {
        let buf = read_window(ws, fva, FLIRT_WINDOW);
        proof {
            assert forall|i: int| 0 <= i < self.sigs.signatures().len() implies (display_name(
                #[trigger] self.sigs.signatures()[i].names@,
            ) is Some) by {
                assert(usable(self.signatures()[i]));
            }
        }
        self.sigs.identify(buf.as_slice())
    }

    /// Two signatures that match `b` give different names.
    pub open spec fn ambiguous_on(&self, b: Seq<u8>) -> bool {
        exists|i: int, j: int|
            0 <= i < self.signatures().len() && 0 <= j < self.signatures().len() && signature_matches(
                #[trigger] self.signatures()[i],
                b,
            ) && signature_matches(#[trigger] self.signatures()[j], b) && display_name(
                self.signatures()[i].names@,
            ) != display_name(self.signatures()[j].names@)
    }

    /// Some signature matches `b`, and every one that does gives the name `n`.
    pub open spec fn named_on(&self, b: Seq<u8>, n: Seq<u8>) -> bool {
        &&& exists|i: int| 0 <= i < self.signatures().len() && signature_matches(#[trigger] self.signatures()[i], b)
        &&& forall|i: int|
            0 <= i < self.signatures().len() && signature_matches(#[trigger] self.signatures()[i], b)
                ==> display_name(self.signatures()[i].names@) == Some(n)
    }

    proof fn lemma_named_same(&self, b: Seq<u8>, n: Seq<u8>, n2: Seq<u8>)
        requires
            self.named_on(b, n),
            self.named_on(b, n2),
        ensures
            n == n2,
    {
        let i = choose|i: int| 0 <= i < self.signatures().len() && signature_matches(#[trigger] self.signatures()[i], b);
    }

    /// When every matching signature gives `n`, the matcher's answer is `Unique(n)` and no
    /// other.
    proof fn lemma_named_unique(&self, b: Seq<u8>, n: Seq<u8>)
        requires
            self.named_on(b, n),
        ensures
            !self.ambiguous_on(b),
    {
    }

    /// Name each function whose bytes all matching signatures agree on, unless it has a
    /// name already. Returns the functions on which signatures disagree; those get no
    /// name. Functions that start within `FLIRT_WINDOW` bytes of the top of the address
    /// range are left alone.
    pub fn analyze(&self, ws: &mut Workspace) -> (r: Vec<u64>)
        requires
            self.wf(),
            old(ws).wf(),
        ensures
            final(ws).wf(),
            final(ws).functions_view() == old(ws).functions_view(),
            final(ws).module_of() == old(ws).module_of(),
            forall|a: int| #[trigger] final(ws).insn_len(a) == old(ws).insn_len(a),
            forall|f: u64|
                #[trigger] r@.contains(f) <==> (old(ws).functions_view().contains(f) && f <= u64::MAX - FLIRT_WINDOW
                    && self.ambiguous_on(function_window(*old(ws), f as int))),
            final(ws).symbols_view().len() >= old(ws).symbols_view().len(),
            final(ws).symbols_view().take(old(ws).symbols_view().len() as int) == old(ws).symbols_view(),
            forall|k: int|
                old(ws).symbols_view().len() <= k < final(ws).symbols_view().len() ==> {
                    let (f, n) = #[trigger] final(ws).symbols_view()[k];
                    &&& old(ws).functions_view().contains(f)
                    &&& self.named_on(function_window(*old(ws), f as int), n)
                },
            forall|f: u64, n: Seq<u8>|
                old(ws).functions_view().contains(f) && f <= u64::MAX - FLIRT_WINDOW && !has_symbol(*old(ws), f)
                    && #[trigger] self.named_on(function_window(*old(ws), f as int), n)
                    ==> final(ws).symbols_view().contains((f, n)),
    {
        let functions = crate::workspace::copy_u64s(ws.get_functions());
        let ghost w0 = *ws;
        let mut ambiguous: Vec<u64> = Vec::new();
        let mut k: usize = 0;
        while k < functions.len()
            invariant
                self.wf(),
                ws.wf(),
                k <= functions@.len(),
                functions@ == w0.functions_view(),
                ws.functions_view() == w0.functions_view(),
                ws.module_of() == w0.module_of(),
                forall|a: int| #[trigger] ws.insn_len(a) == w0.insn_len(a),
                forall|f: u64|
                    #[trigger] ambiguous@.contains(f) <==> (functions@.take(k as int).contains(f) && f
                        <= u64::MAX - FLIRT_WINDOW && self.ambiguous_on(function_window(w0, f as int))),
                ws.symbols_view().len() >= w0.symbols_view().len(),
                ws.symbols_view().take(w0.symbols_view().len() as int) == w0.symbols_view(),
                forall|f: u64, n: Seq<u8>|
                    functions@.take(k as int).contains(f) && f <= u64::MAX - FLIRT_WINDOW && !has_symbol(w0, f)
                        && #[trigger] self.named_on(function_window(w0, f as int), n) ==> ws.symbols_view().contains(
                        (f, n),
                    ),
                forall|j: int|
                    w0.symbols_view().len() <= j < ws.symbols_view().len() ==> {
                        let (f, n) = #[trigger] ws.symbols_view()[j];
                        &&& w0.functions_view().contains(f)
                        &&& self.named_on(function_window(w0, f as int), n)
                    },
            decreases functions@.len() - k,
        {
            let fva = functions[k];
            let ghost amb0 = ambiguous@;
            let ghost syms0 = ws.symbols_view();
            proof {
                crate::workspace::lemma_take_push_contains(functions@, k as int, fva);
                assert(functions@.contains(fva)) by {
                    assert(functions@[k as int] == fva);
                }
            }
            if fva <= u64::MAX - FLIRT_WINDOW as u64 {
                let m = self.identify(ws, fva);
                assert(function_window(*ws, fva as int) == function_window(w0, fva as int));
                let ghost b = function_window(w0, fva as int);
                match m {
                    NameMatch::NoMatch => {
                        assert forall|n: Seq<u8>| !#[trigger] self.named_on(b, n) by {}
                    },
                    NameMatch::Ambiguous => {
                        ambiguous.push(fva);
                        assert forall|n: Seq<u8>| !#[trigger] self.named_on(b, n) by {
                            if self.named_on(b, n) {
                                self.lemma_named_unique(b, n);
                            }
                        }
                    },
                    NameMatch::Unique(name) => {
                        let ghost nv = name@;
                        let r = ws.make_symbol(fva, name);
                        proof {
                            if ws.symbols_view().len() > syms0.len() {
                                assert(ws.symbols_view() == syms0.push((fva, nv)));
                            }
                            assert forall|n: Seq<u8>| !has_symbol(w0, fva) && #[trigger] self.named_on(b, n)
                                implies ws.symbols_view().contains((fva, n)) by {
                                let i = choose|i: int| 0 <= i < self.signatures().len() && signature_matches(#[trigger] self.signatures()[i], b);
                                assert(n == nv);
                                if r is Ok {
                                    assert(ws.symbols_view()[syms0.len() as int] == (fva, n));
                                } else {
                                    let z = choose|z: int| 0 <= z < syms0.len() && (#[trigger] syms0[z]).0 == fva;
                                    assert(z >= w0.symbols_view().len()) by {
                                        if z < w0.symbols_view().len() {
                                            assert(w0.symbols_view()[z] == syms0[z]);
                                        }
                                    }
                                    let n2 = syms0[z].1;
                                    assert(self.named_on(b, n2));
                                    self.lemma_named_same(b, n, n2);
                                    assert(ws.symbols_view()[z] == syms0[z]);
                                }
                            }
                        }
                    },
                }
            }
            assert(forall|n: Seq<u8>| fva <= u64::MAX - FLIRT_WINDOW && !has_symbol(w0, fva) && #[trigger] self.named_on(function_window(w0, fva as int), n) ==> ws.symbols_view().contains((fva, n)));
            proof {
                assert forall|f: u64|
                    #[trigger] ambiguous@.contains(f) <==> (functions@.take(k + 1).contains(f) && f
                        <= u64::MAX - FLIRT_WINDOW && self.ambiguous_on(function_window(w0, f as int))) by {
                    crate::workspace::lemma_take_push_contains(functions@, k as int, f);
                    if ambiguous@ != amb0 {
                        crate::nfa::lemma_push_contains(amb0, fva, f);
                    }
                }
                assert forall|f: u64, n: Seq<u8>|
                    functions@.take(k + 1).contains(f) && f <= u64::MAX - FLIRT_WINDOW && !has_symbol(w0, f)
                        && #[trigger] self.named_on(function_window(w0, f as int), n) implies ws.symbols_view().contains(
                        (f, n),
                    ) by {
                    if functions@.take(k as int).contains(f) {
                        let z = choose|z: int| 0 <= z < syms0.len() && syms0[z] == (f, n);
                        if ws.symbols_view() != syms0 {
                            assert(ws.symbols_view()[z] == syms0[z]);
                        }
                    } else {
                        assert(f == fva);
                    }
                }
                assert forall|j: int|
                    w0.symbols_view().len() <= j < ws.symbols_view().len() implies {
                        let (f, n) = #[trigger] ws.symbols_view()[j];
                        &&& w0.functions_view().contains(f)
                        &&& self.named_on(function_window(w0, f as int), n)
                    } by {
                    if j < syms0.len() {
                        assert(ws.symbols_view()[j] == syms0[j]);
                    }
                }
                assert(ws.symbols_view().take(w0.symbols_view().len() as int) =~= w0.symbols_view()) by {
                    assert forall|j: int| 0 <= j < w0.symbols_view().len() implies ws.symbols_view()[j] == w0.symbols_view()[j] by {
                        assert(syms0[j] == w0.symbols_view()[j]);
                        if ws.symbols_view() != syms0 {
                            assert(ws.symbols_view()[j] == syms0[j]);
                        }
                    }
                }
            }
            k = k + 1;
        }
        assert(functions@.take(k as int) =~= functions@);
        ambiguous
    }
}

/// The bytes the FLIRT analyzer reads for the function at `f`.
pub open spec fn function_window(ws: Workspace, f: int) -> Seq<u8> {
    let v = ws.module_of().address_space@;
    view_range(v, f, f + readable_len(v, f, FLIRT_WINDOW as nat))
}

} // verus!
