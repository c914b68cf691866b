use lancelot::analysis::{get_relocs, RelocAnalyzer};
use lancelot::builder::PendingAnalyzer;
use lancelot::loader::{Arch, FileFormat, PERM_R, PERM_W, PERM_X};
use lancelot::pe::{load, load_pe, parse_pe_exports, parse_pe_headers, parse_pe_sections};
use lancelot::workspace::{FlowKind, InsnFlow, Workspace};

fn put16(b: &mut [u8], at: usize, v: u16) {
    b[at..at + 2].copy_from_slice(&v.to_le_bytes());
}

fn put32(b: &mut [u8], at: usize, v: u32) {
    b[at..at + 4].copy_from_slice(&v.to_le_bytes());
}

/// A 32-bit PE with a `.text` section at 0x1000 (NOP; RET, entry point there) and a
/// `.data` section at 0x2000 holding the address of 0x1001.
fn tiny_pe() -> Vec<u8> {
    let mut b = vec![0u8; 0x600];
    b[0] = b'M';
    b[1] = b'Z';
    put32(&mut b, 0x3C, 0x40);
    b[0x40..0x44].copy_from_slice(b"PE\0\0");
    let coff = 0x44;
    put16(&mut b, coff, 0x14C);
    put16(&mut b, coff + 2, 2);
    put16(&mut b, coff + 16, 0xE0);
    put16(&mut b, coff + 18, 0x0102);
    let opt = coff + 20;
    put16(&mut b, opt, 0x10B);
    put32(&mut b, opt + 4, 0x200);
    put32(&mut b, opt + 16, 0x1000);
    put32(&mut b, opt + 20, 0x1000);
    put32(&mut b, opt + 24, 0x2000);
    put32(&mut b, opt + 28, 0x400000);
    put32(&mut b, opt + 32, 0x1000);
    put32(&mut b, opt + 36, 0x200);
    put16(&mut b, opt + 40, 6);
    put16(&mut b, opt + 48, 6);
    put32(&mut b, opt + 56, 0x3000);
    put32(&mut b, opt + 60, 0x200);
    put16(&mut b, opt + 68, 2);
    put32(&mut b, opt + 72, 0x100000);
    put32(&mut b, opt + 76, 0x1000);
    put32(&mut b, opt + 80, 0x100000);
    put32(&mut b, opt + 84, 0x1000);
    put32(&mut b, opt + 92, 16);
    let sects = opt + 0xE0;
    b[sects..sects + 5].copy_from_slice(b".text");
    put32(&mut b, sects + 8, 0x10);
    put32(&mut b, sects + 12, 0x1000);
    put32(&mut b, sects + 16, 0x200);
    put32(&mut b, sects + 20, 0x200);
    put32(&mut b, sects + 36, 0x6000_0020);
    let data = sects + 40;
    b[data..data + 5].copy_from_slice(b".data");
    put32(&mut b, data + 8, 0x10);
    put32(&mut b, data + 12, 0x2000);
    put32(&mut b, data + 16, 0x200);
    put32(&mut b, data + 20, 0x400);
    put32(&mut b, data + 36, 0xC000_0040);
    b[0x200] = 0x90;
    b[0x201] = 0xC3;
    put32(&mut b, 0x400, 0x401001);
    b
}

#[test]
fn pe_headers_are_read() {
    let pe = tiny_pe();
    let h = parse_pe_headers(&pe).unwrap();
    assert!(!h.is_64);
    assert_eq!(h.image_base, 0x400000);
    assert_eq!(h.entry, 0x1000);
    assert_eq!(h.reloc_directory, None);
    let secs = parse_pe_sections(&pe).unwrap();
    assert_eq!(secs.len(), 2);
    assert_eq!(&secs[0].name[..5], b".text");
    assert_eq!(secs[1].virtual_address, 0x2000);
    assert!(parse_pe_exports(&pe).unwrap().is_empty());
    assert!(parse_pe_headers(b"\xEB\xFE").is_none());
}

#[test]
fn pe_sections_are_laid_out() {
    let pe = tiny_pe();
    let (m, arch, _) = load_pe(&pe).unwrap();
    assert_eq!(arch, Arch::X32);
    assert_eq!(m.base_address, 0x400000);
    assert_eq!(m.sections.len(), 2);
    assert_eq!(m.sections[0].name, b".text".to_vec());
    assert_eq!(m.sections[0].addr, 0x1000);
    assert_eq!(m.sections[0].perms.0, PERM_R | PERM_X);
    assert_eq!(m.sections[1].perms.0, PERM_R | PERM_W);
    assert_eq!(m.address_space.get(0x1000), Some(0x90));
    assert_eq!(m.address_space.get(0x1001), Some(0xC3));
    assert_eq!(m.address_space.get(0x1300), Some(0x00));
    assert_eq!(m.address_space.get(0x0), None);
    let (_, _, format) = load(&pe).unwrap();
    assert_eq!(format, FileFormat::PE);
}

#[test]
fn pe_entry_point_is_analysed() {
    let pe = tiny_pe();
    let cfg = lancelot::analysis::FlirtConfig { pat_dir: String::new(), sig_dir: String::new() };
    let (mut ws, format, pending) = Workspace::from_bytes("tiny.exe".to_string(), pe, cfg).load().unwrap();
    assert_eq!(format, FileFormat::PE);
    assert_eq!(pending, vec![PendingAnalyzer::Relocations, PendingAnalyzer::Flirt]);
    assert_eq!(ws.get_symbol(0x1000), Some(&b"entry".to_vec()));
    assert_eq!(ws.get_functions(), &vec![0x1000]);
    while let Some(rva) = ws.next_pending() {
        let bytes = ws.insn_bytes(rva);
        let flow = match bytes[0] {
            0x90 => Some(InsnFlow { length: 1, kind: FlowKind::Sequential, displacement: 0 }),
            0xC3 => Some(InsnFlow { length: 1, kind: FlowKind::NoSuccessor, displacement: 0 }),
            _ => None,
        };
        ws.record_insn(rva, flow);
    }
    assert_eq!(ws.get_insn_length(0x1000), 1);
    assert_eq!(ws.get_insn_length(0x1001), 1);
    assert_eq!(ws.read_va(0x2000).unwrap(), 0x401001);
    assert_eq!(ws.rva(0x401001), Some(0x1001));
    assert!(!ws.is_executable(0x2000));
}

#[test]
fn pe_reloc_target_becomes_instruction() {

    let mut pe = tiny_pe();
    let opt = 0x44 + 20;
    // base-relocation directory: one block for page 0x2000 at 0x2010, twelve bytes.
    put32(&mut pe, opt + 96 + 5 * 8, 0x2010);
    put32(&mut pe, opt + 96 + 5 * 8 + 4, 12);
    put32(&mut pe, 0x400, 0x401008);
    put32(&mut pe, 0x410, 0x2000);
    put32(&mut pe, 0x414, 12);
    put16(&mut pe, 0x418, 0x3000);
    pe[0x208] = 0x90;
    pe[0x209] = 0xC3;
    let h = parse_pe_headers(&pe).unwrap();
    assert_eq!(h.reloc_directory, Some(lancelot::pe::DataDirectory { rva: 0x2010, size: 12 }));

    let cfg = lancelot::analysis::FlirtConfig { pat_dir: String::new(), sig_dir: String::new() };
    let (mut ws, _, _) = Workspace::from_bytes("tiny.exe".to_string(), pe, cfg).load().unwrap();
    let relocs = get_relocs(&ws, 0x2010, 12).unwrap();
    assert_eq!(relocs[0].offset, 0x2000);
    let analyzer = RelocAnalyzer::new();
    let targets = analyzer.targets(&ws, &relocs);
    assert_eq!(targets, vec![0x1008]);
    assert!(analyzer.seed(&mut ws, 0x1008));
    while let Some(rva) = ws.next_pending() {
        let bytes = ws.insn_bytes(rva);
        let flow = match bytes[0] {
            0x90 => Some(InsnFlow { length: 1, kind: FlowKind::Sequential, displacement: 0 }),
            0xC3 => Some(InsnFlow { length: 1, kind: FlowKind::NoSuccessor, displacement: 0 }),
            _ => None,
        };
        ws.record_insn(rva, flow);
    }
    assert!(ws.is_insn(0x1008));
    assert!(ws.is_insn(0x1009));
}

#[test]
fn non_pe_is_not_supported_by_pe_loader() {
    assert_eq!(load_pe(b"\xEB\xFE").err(), Some(lancelot::loader::LoaderError::NotSupported));
}

#[test]
fn misaligned_section_is_not_supported() {
    let mut pe = tiny_pe();
    let sects = 0x44 + 20 + 0xE0;
    put32(&mut pe, sects + 12, 0x1010);
    assert!(parse_pe_headers(&pe).is_some());
    assert_eq!(load_pe(&pe).err(), Some(lancelot::loader::LoaderError::NotSupported));
}
