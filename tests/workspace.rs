use lancelot::analysis::{
    get_relocs, is_in_insn, parse_reloc, split_u32, EntryPointAnalyzer, FlirtAnalyzer, Reloc, RelocAnalyzer,
    RelocationType,
};
use lancelot::builder::LoaderChoice;
use lancelot::loader::{Arch, FileFormat};
use lancelot::flirt::{ByteSignature, FlirtSignature, Name, SigElement, Symbol};
use lancelot::loader::{load_shellcode, Permissions, PERM_R, PERM_X};
use lancelot::pe::{load, PeHeaders};
use lancelot::workspace::{settle_kind, FlowKind, InsnFlow, Workspace, WorkspaceError};
use lancelot::analysis::ExportsAnalyzer;
use lancelot::nfa::{Pattern, NFA};
use lancelot::pe::PeExport;
use lancelot::xref::{Xref, XrefType};

/// The few x86 encodings these tests use, classified as the decoder would.
fn decode(bytes: &[u8]) -> Option<InsnFlow> {
    let flow = |length: u8, kind: FlowKind, displacement: i64| Some(InsnFlow { length, kind, displacement });
    match bytes.first()? {
        0xEB => flow(2, FlowKind::Jump, *bytes.get(1)? as i8 as i64),
        0x75 => flow(2, FlowKind::ConditionalJump, *bytes.get(1)? as i8 as i64),
        0xE8 => {
            let d = i32::from_le_bytes([*bytes.get(1)?, *bytes.get(2)?, *bytes.get(3)?, *bytes.get(4)?]);
            flow(5, FlowKind::Call, d as i64)
        }
        0x0F if bytes.get(1)? & 0xF0 == 0x40 => flow(3, FlowKind::ConditionalMove, 0),
        0x90 => flow(1, FlowKind::Sequential, 0),
        0xC3 => flow(1, FlowKind::NoSuccessor, 0),
        _ => None,
    }
}

fn drain(ws: &mut Workspace) {
    while let Some(rva) = ws.next_pending() {
        let bytes = ws.insn_bytes(rva);
        ws.record_insn(rva, decode(&bytes));
    }
}

fn shellcode(buf: &[u8]) -> Workspace {
    Workspace::new(Arch::X32, load_shellcode(buf)).unwrap()
}

fn xref(src: u64, dst: u64, typ: XrefType) -> Xref {
    Xref { src, dst, typ }
}

fn block_insns(ws: &Workspace, entry: u64) -> Vec<Vec<u64>> {
    let mut blocks: Vec<Vec<u64>> = ws.get_basic_blocks(entry).unwrap().into_iter().map(|b| b.insns).collect();
    blocks.sort();
    blocks
}

#[test]
fn flat_shellcode_infinite_loop() {
    let mut ws = shellcode(b"\xEB\xFE");
    assert_eq!(ws.read_u8(0).unwrap(), 0xEB);
    assert_eq!(ws.read_u8(1).unwrap(), 0xFE);
    assert_eq!(ws.read_u16(0).unwrap(), 0xFEEB);
    assert_eq!(ws.read_u8(0x1000), Err(WorkspaceError::InvalidAddress));
    ws.make_function(0).unwrap();
    drain(&mut ws);
    assert_eq!(ws.get_insn_length(0), 2);
    assert_eq!(ws.get_xrefs_from(0).unwrap(), &vec![xref(0, 0, XrefType::UnconditionalJump)]);
    assert_eq!(ws.get_xrefs_to(0).unwrap(), &vec![xref(0, 0, XrefType::UnconditionalJump)]);
}

#[test]
fn shellcode_module_layout() {
    let m = load_shellcode(b"\xEB\xFE");
    assert_eq!(m.base_address, 0);
    assert_eq!(m.sections.len(), 1);
    assert_eq!(m.sections[0].name, b"raw".to_vec());
    assert_eq!(m.sections[0].size, 2);
    let (_, arch, format) = load(b"\xEB\xFE").unwrap();
    assert_eq!(arch.name(), "x32");
    assert_eq!(format.name(), "Raw");
}

#[test]
fn conditional_jump_and_fallthrough() {
    let mut ws = shellcode(b"\x75\x02\x90\x90\xC3");
    ws.make_function(0).unwrap();
    drain(&mut ws);
    for (a, len) in [(0u64, 2u8), (2, 1), (3, 1), (4, 1)] {
        assert_eq!(ws.get_insn_length(a), len);
    }
    assert_eq!(ws.get_insn_length(1), 0);
    assert_eq!(
        ws.get_xrefs_from(0).unwrap(),
        &vec![xref(0, 4, XrefType::ConditionalJump), xref(0, 2, XrefType::Fallthrough)]
    );
    assert!(ws.get_xrefs_from(4).unwrap().is_empty());
    // 4 is the target of the jump, so the block at 2 ends before it.
    assert_eq!(block_insns(&ws, 0), vec![vec![0], vec![2, 3], vec![4]]);
}

#[test]
fn call_and_return() {
    let mut ws = shellcode(b"\xE8\x00\x00\x00\x00\xC3\xC3");
    ws.make_function(0).unwrap();
    drain(&mut ws);
    assert_eq!(
        ws.get_xrefs_from(0).unwrap(),
        &vec![xref(0, 5, XrefType::Call), xref(0, 5, XrefType::Fallthrough)]
    );
    assert!(ws.get_xrefs_from(5).unwrap().is_empty());
    assert_eq!(ws.get_insn_length(6), 0);
    assert_eq!(block_insns(&ws, 0), vec![vec![0, 5]]);
    ws.make_insn(6).unwrap();
    drain(&mut ws);
    assert_eq!(ws.get_insn_length(6), 1);
    assert_eq!(block_insns(&ws, 6), vec![vec![6]]);
}

#[test]
fn conditional_move_flows_to_next() {
    let mut ws = shellcode(b"\x0F\x44\xC1\xC3");
    ws.make_function(0).unwrap();
    drain(&mut ws);
    assert_eq!(
        ws.get_xrefs_from(0).unwrap(),
        &vec![xref(0, 3, XrefType::ConditionalMove), xref(0, 3, XrefType::Fallthrough)]
    );
    assert_eq!(ws.get_insn_length(3), 1);
}

#[test]
fn undecodable_bytes_stay_unclassified() {
    let mut ws = shellcode(b"\x90\xFF\xFF");
    ws.make_function(0).unwrap();
    drain(&mut ws);
    assert_eq!(ws.get_insn_length(0), 1);
    assert_eq!(ws.get_insn_length(1), 0);
    assert_eq!(ws.get_basic_blocks(0).err(), Some(WorkspaceError::InvalidInstruction));
}

#[test]
fn xrefs_are_symmetric() {
    let mut ws = shellcode(b"\x75\x02\x90\x90\xC3");
    ws.make_function(0).unwrap();
    drain(&mut ws);
    for a in 0..5u64 {
        for x in ws.get_xrefs_from(a).unwrap() {
            assert!(ws.get_xrefs_to(x.dst).unwrap().contains(x));
        }
        for x in ws.get_xrefs_to(a).unwrap() {
            assert!(ws.get_xrefs_from(x.src).unwrap().contains(x));
        }
    }
}

#[test]
fn seed_order_does_not_change_instructions() {
    let code = b"\x75\x02\x90\x90\xC3\x90\xC3";
    let mut a = shellcode(code);
    a.make_insn(0).unwrap();
    a.make_insn(5).unwrap();
    drain(&mut a);
    let mut b = shellcode(code);
    b.make_insn(5).unwrap();
    b.make_insn(0).unwrap();
    drain(&mut b);
    for r in 0..code.len() as u64 {
        assert_eq!(a.get_insn_length(r), b.get_insn_length(r));
    }
}

#[test]
fn blocks_partition_function() {
    let mut ws = shellcode(b"\x75\x02\x90\x90\xC3");
    ws.make_function(0).unwrap();
    drain(&mut ws);
    let blocks = ws.get_basic_blocks(0).unwrap();
    let mut all: Vec<u64> = blocks.iter().flat_map(|b| b.insns.clone()).collect();
    all.sort();
    assert_eq!(all, vec![0, 2, 3, 4]);
    let b0 = blocks.iter().find(|b| b.addr == 0).unwrap();
    let mut succ = b0.successors.clone();
    succ.sort();
    assert_eq!(succ, vec![2, 4]);
    let b4 = blocks.iter().find(|b| b.addr == 4).unwrap();
    let mut preds = b4.predecessors.clone();
    preds.sort();
    assert_eq!(preds, vec![0, 2]);
}

#[test]
fn read_helpers() {
    let ws = shellcode(b"\x00\x11\x22\x33\x44\x55\x66\x77\xFF\xFF\xFF\xFF");
    assert_eq!(ws.read_u32(0).unwrap(), 0x33221100);
    assert_eq!(ws.read_u64(0).unwrap(), 0x7766554433221100);
    assert_eq!(ws.read_i32(8).unwrap(), -1);
    assert_eq!(ws.read_i64(4).unwrap(), 0xFFFFFFFF77665544u64 as i64);
    assert_eq!(ws.read_rva(0).unwrap(), 0x33221100);
    assert_eq!(ws.read_va(0).unwrap(), 0x33221100);
    assert_eq!(ws.read_bytes(0, 2).unwrap(), vec![0x00, 0x11]);
    assert!(ws.read_bytes(0, 0x1000).is_ok());
    assert!(ws.read_bytes(0, 0x1001).is_err());
    assert!(ws.read_bytes(1, 0x1000).is_err());
    assert_eq!(ws.rva(0x10), Some(0x10));
    assert_eq!(ws.va(0x10), Some(0x10));
}

#[test]
fn probe_ranges() {
    let ws = shellcode(b"\xEB\xFE");
    assert!(ws.probe(0, 1, Permissions(PERM_R)));
    assert!(ws.probe(0, 1, Permissions(PERM_X)));
    assert!(ws.probe(0, 1, Permissions(PERM_R | PERM_X)));
    assert!(ws.probe(0, 2, Permissions(PERM_R)));
    assert!(!ws.probe(0, 0x1001, Permissions(PERM_R)));
    assert!(ws.probe(1, 1, Permissions(PERM_R)));
    assert!(!ws.probe(1, 0x1000, Permissions(PERM_R)));
    assert!(!ws.probe(0, 3, Permissions(PERM_X)));
}

#[test]
fn symbols_are_assigned_once() {
    let mut ws = shellcode(b"\xC3");
    ws.make_symbol(0, b"entry".to_vec()).unwrap();
    assert_eq!(ws.make_symbol(0, b"other".to_vec()), Err(WorkspaceError::SymbolExists));
    assert_eq!(ws.get_symbol(0), Some(&b"entry".to_vec()));
    assert_eq!(ws.get_symbol(1), None);
}

#[test]
fn make_insn_outside_code_is_rejected() {
    let mut ws = shellcode(b"\xC3");
    assert_eq!(ws.make_insn(0x10), Err(WorkspaceError::InvalidAddress));
    assert_eq!(ws.make_function(0x10), Err(WorkspaceError::InvalidAddress));
}

#[test]
fn entry_point_analyzer_seeds_entry() {
    let mut ws = shellcode(b"\x90\xC3");
    let hdrs = PeHeaders { is_64: false, image_base: 0, entry: 1, reloc_directory: None };
    EntryPointAnalyzer::new().analyze(&mut ws, hdrs).unwrap();
    drain(&mut ws);
    assert_eq!(ws.get_symbol(1), Some(&b"entry".to_vec()));
    assert_eq!(ws.get_functions(), &vec![1]);
    assert_eq!(ws.get_insn_length(1), 1);
}

#[test]
fn reloc_entries_decode() {
    assert_eq!(split_u32(0x3004_A010), (0xA010, 0x3004));
    assert_eq!(parse_reloc(0x1000, 0x3010).unwrap(), Reloc { typ: RelocationType::ImageRelBasedHighLow, offset: 0x1010 });
    assert_eq!(parse_reloc(0x1000, 0xA008).unwrap(), Reloc { typ: RelocationType::ImageRelBasedDir64, offset: 0x1008 });
    assert_eq!(parse_reloc(0x1000, 0x0000).unwrap().typ, RelocationType::ImageRelBasedAbsolute);
    assert_eq!(parse_reloc(0x1000, 0xB000), Err(WorkspaceError::InvalidRelocType));
}

/// Code at 0x10 and 0x11, a pointer to 0x10 at 0x20, and a relocation directory at 0x40
/// with one block for page 0 that fixes up 0x20.
fn reloc_image() -> Vec<u8> {
    let mut buf = vec![0u8; 0x60];
    buf[0x10] = 0x90;
    buf[0x11] = 0xC3;
    buf[0x12] = 0xC3;
    buf[0x13] = 0xC3;
    buf[0x20..0x24].copy_from_slice(&0x10u32.to_le_bytes());
    buf[0x40..0x44].copy_from_slice(&0u32.to_le_bytes());
    buf[0x44..0x48].copy_from_slice(&12u32.to_le_bytes());
    buf[0x48..0x4A].copy_from_slice(&0x3020u16.to_le_bytes());
    buf[0x4A..0x4C].copy_from_slice(&0x0000u16.to_le_bytes());
    buf
}

#[test]
fn reloc_directory_with_zero_page_is_empty() {
    let ws = shellcode(&reloc_image());
    assert!(get_relocs(&ws, 0x40, 12).unwrap().is_empty());
}

#[test]
fn reloc_directory_block() {
    let mut buf = reloc_image();
    buf[0x40..0x44].copy_from_slice(&0x1u32.to_le_bytes());
    let ws = shellcode(&buf);
    let relocs = get_relocs(&ws, 0x40, 12).unwrap();
    assert_eq!(relocs[0], Reloc { typ: RelocationType::ImageRelBasedHighLow, offset: 0x21 });
    assert_eq!(relocs[1], Reloc { typ: RelocationType::ImageRelBasedAbsolute, offset: 0x1 });
    assert_eq!(get_relocs(&ws, 0x2000, 12), Err(WorkspaceError::InvalidAddress));
}

#[test]
fn reloc_target_becomes_instruction() {
    let mut ws = shellcode(&reloc_image());
    let relocs = vec![Reloc { typ: RelocationType::ImageRelBasedHighLow, offset: 0x20 }];
    let analyzer = RelocAnalyzer::new();
    let targets = analyzer.targets(&ws, &relocs);
    assert_eq!(targets, vec![0x10]);
    assert!(!is_in_insn(&ws, 0x10));
    assert!(analyzer.seed(&mut ws, 0x10));
    drain(&mut ws);
    assert_eq!(ws.get_insn_length(0x10), 1);
    assert!(is_in_insn(&ws, 0x10));
    assert!(!analyzer.seed(&mut ws, 0x11));
}

#[test]
fn reloc_to_zero_or_pointer_is_ignored() {
    let mut buf = reloc_image();
    buf[0x24..0x28].copy_from_slice(&0x30u32.to_le_bytes());
    buf[0x28..0x2C].copy_from_slice(&0x24u32.to_le_bytes());
    let ws = shellcode(&buf);
    let relocs = vec![
        Reloc { typ: RelocationType::ImageRelBasedHighLow, offset: 0x24 },
        Reloc { typ: RelocationType::ImageRelBasedHighLow, offset: 0x28 },
        Reloc { typ: RelocationType::ImageRelBasedHigh, offset: 0x20 },
    ];
    assert!(RelocAnalyzer::new().targets(&ws, &relocs).is_empty());
}

fn named(prefix: &[u8], name: &str) -> FlirtSignature {
    FlirtSignature {
        byte_sig: ByteSignature(prefix.iter().map(|&b| SigElement::Byte(b)).collect()),
        size_of_bytes_crc16: 0,
        crc16: 0,
        size_of_function: prefix.len() as u16,
        names: vec![Symbol::Public(Name { offset: 0, name: name.as_bytes().to_vec() })],
        footer: None,
    }
}

#[test]
fn flirt_analyzer_names_functions() {
    let body = b"\x90\x90\x90\x90\x90\x90\x90\xC3";
    let mut ws = shellcode(body);
    ws.make_function(0).unwrap();
    drain(&mut ws);
    let a = FlirtAnalyzer::new(vec![named(body, "nops")]);
    assert!(a.analyze(&mut ws).is_empty());
    assert_eq!(ws.get_symbol(0), Some(&b"nops".to_vec()));
}

#[test]
fn flirt_analyzer_skips_ambiguous() {
    let body = b"\x90\x90\x90\x90\x90\x90\x90\xC3";
    let mut ws = shellcode(body);
    ws.make_function(0).unwrap();
    drain(&mut ws);
    let a = FlirtAnalyzer::new(vec![named(body, "one"), named(body, "two")]);
    assert_eq!(a.analyze(&mut ws), vec![0]);
    assert_eq!(ws.get_symbol(0), None);
}

fn default_config() -> lancelot::analysis::FlirtConfig {
    lancelot::analysis::FlirtConfig { pat_dir: String::new(), sig_dir: String::new() }
}

#[test]
fn builder_loads_shellcode_with_function_at_zero() {
    let (mut ws, format, pending) =
        Workspace::from_bytes("foo.bin".to_string(), b"\xEB\xFE".to_vec(), default_config()).load().unwrap();
    assert_eq!(format, FileFormat::Raw);
    assert!(pending.is_empty());
    assert_eq!(ws.arch(), Arch::X32);
    assert_eq!(ws.module().sections[0].name, b"raw".to_vec());
    drain(&mut ws);
    assert_eq!(ws.get_functions(), &vec![0]);
    assert_eq!(ws.get_insn_length(0), 2);

    let (ws, _, _) = Workspace::from_bytes("foo.bin".to_string(), b"\xEB\xFE".to_vec(), default_config())
        .with_loader(LoaderChoice::Shellcode(Arch::X64))
        .disable_analysis()
        .load()
        .unwrap();
    assert_eq!(ws.arch(), Arch::X64);
    assert!(ws.get_functions().is_empty());
}

#[test]
fn builder_pe_choice_rejects_shellcode() {
    let r = Workspace::from_bytes("foo.bin".to_string(), b"\xEB\xFE".to_vec(), default_config())
        .with_loader(LoaderChoice::Pe)
        .enable_strict_mode()
        .load();
    assert_eq!(r.err(), Some(WorkspaceError::NotSupported));
}

#[test]
fn read_utf8_stops_at_nul() {
    let ws = shellcode(b"\x00\x41\x41\x00\xFF\xFE\x00");
    assert_eq!(ws.read_utf8(1).unwrap(), "AA");
    assert_eq!(ws.read_utf8(0).unwrap(), "");
    assert_eq!(ws.read_utf8(4), Err(WorkspaceError::ParseError));
    assert_eq!(ws.read_utf8(0x1000), Err(WorkspaceError::InvalidAddress));
}

#[test]
fn blocks_cover_flow_from_every_instruction() {
    let mut ws = shellcode(b"\x90\x75\x03\x90\xEB\x01\x90\xC3");
    ws.make_function(0).unwrap();
    drain(&mut ws);
    let blocks = ws.get_basic_blocks(0).unwrap();
    let all: Vec<u64> = blocks.iter().flat_map(|b| b.insns.clone()).collect();
    for &a in &all {
        for x in ws.get_xrefs_from(a).unwrap() {
            if x.typ != XrefType::Call {
                assert!(all.contains(&x.dst));
            }
        }
    }
    let mut starts: Vec<u64> = blocks.iter().map(|b| b.addr).collect();
    starts.sort();
    starts.dedup();
    assert_eq!(starts.len(), blocks.len());
}

#[test]
fn unresolved_branches_settle() {
    assert_eq!(settle_kind(FlowKind::Jump, false), FlowKind::NoSuccessor);
    assert_eq!(settle_kind(FlowKind::Call, false), FlowKind::Sequential);
    assert_eq!(settle_kind(FlowKind::ConditionalJump, false), FlowKind::Sequential);
    assert_eq!(settle_kind(FlowKind::Jump, true), FlowKind::Jump);
    assert_eq!(settle_kind(FlowKind::ConditionalMove, false), FlowKind::ConditionalMove);
}

#[test]
fn map_of_nothing_past_capacity_succeeds() {
    let mut d: lancelot::aspace::DenseAddressSpace<u8> = lancelot::aspace::DenseAddressSpace::with_capacity(0x1000);
    assert_eq!(d.map(0x10000, &[]), Ok(()));
    assert_eq!(d.map_empty(0x10000, 0), Ok(()));
}

#[test]
fn shellcode_pages_past_the_code_are_unmapped() {
    let ws = shellcode(b"\xEB\xFE");
    assert_eq!(ws.read_u16(0x1000), Err(WorkspaceError::InvalidAddress));
    assert!(!ws.probe(0, 3, Permissions(PERM_X)));
}

#[test]
fn block_successors_follow_the_rule() {
    let mut ws = shellcode(b"\xE8\x00\x00\x00\x00\xC3\xC3");
    ws.make_function(0).unwrap();
    drain(&mut ws);
    let blocks = ws.get_basic_blocks(0).unwrap();
    assert_eq!(blocks.len(), 1);
    assert_eq!(blocks[0].insns, vec![0, 5]);
    assert_eq!(blocks[0].length, 6);
    assert!(blocks[0].successors.is_empty());
}

#[test]
fn exports_get_their_names() {
    let mut ws = shellcode(b"\x90\xC3");
    let exports = vec![
        PeExport { name: Some(b"first".to_vec()), rva: 1 },
        PeExport { name: None, rva: 0 },
        PeExport { name: Some(b"outside".to_vec()), rva: 0x50 },
    ];
    ExportsAnalyzer::new().analyze(&mut ws, &exports);
    assert_eq!(ws.get_symbol(1), Some(&b"first".to_vec()));
    assert_eq!(ws.get_functions(), &vec![1]);
    assert_eq!(ws.get_symbol(0x50), None);
}

#[test]
fn is_in_insn_stops_at_section_start() {
    let mut ws = shellcode(b"\x90\x90\x90");
    ws.make_insn(0).unwrap();
    drain(&mut ws);
    assert!(is_in_insn(&ws, 2));
    assert!(!is_in_insn(&ws, 3));
}

#[test]
fn entry_inside_a_block_is_shared() {
    // NOP at 0 falls into the jump at 1, which jumps back to 0: entering at 1 gives the
    // blocks {1} and {0, 1}.
    let mut ws = shellcode(b"\x90\xEB\xFD");
    ws.make_function(1).unwrap();
    drain(&mut ws);
    assert_eq!(block_insns(&ws, 1), vec![vec![0, 1], vec![1]]);
}

#[test]
fn builder_empty_shellcode_in_strict_mode_fails() {
    let r = Workspace::from_bytes("e.bin".to_string(), vec![], default_config()).enable_strict_mode().load();
    assert_eq!(r.err(), Some(WorkspaceError::InvalidAddress));
    assert!(Workspace::from_bytes("e.bin".to_string(), vec![], default_config()).load().is_ok());
}

#[test]
fn map_empty_fills_with_zero() {
    let mut d: lancelot::aspace::DenseAddressSpace<u8> = lancelot::aspace::DenseAddressSpace::with_capacity(0x5000);
    d.map_empty(0x1000, 0x3000).unwrap();
    assert_eq!(d.slice(0x3FFC, 0x4000).unwrap(), vec![0; 4]);
    assert_eq!(d.slice(0x1FFD, 0x2001).unwrap(), vec![0; 4]);
    assert!(d.slice(0x3FFC, 0x4001).is_err());
    assert!(d.slice(0xFFC, 0x1004).is_err());
}

#[test]
fn nfa_shares_common_prefixes() {
    let mut b = NFA::new();
    b.add_pattern(Pattern::parse(b"AABBCCDD").unwrap());
    b.add_pattern(Pattern::parse(b"AABBCCCC").unwrap());
    let nfa = b.build();
    assert_eq!(nfa.state_count(), 6);
}
