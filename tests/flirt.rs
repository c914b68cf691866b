use lancelot::flirt::{
    crc16, filter_flirt_signatures, is_usable, ByteSignature, FlirtSignature, FlirtSignatureSet,
    Name, NameMatch, SigElement, Symbol,
};
use lancelot::pat;

const EH_PROLOG3_PAT: &str = "\
518B4C240C895C240C8D5C240C508D442408F7D923C18D60F88B43F08904248B 21 B4FE 006E :0000 __EH_prolog3_GS_align ^0041 ___security_cookie ........33C5508941FC8B4DF0895DF08B4304894504FF75F464A1000000008945F48D45F464A300000000F2C3
518B4C240C895C240C8D5C240C508D442408F7D923C18D60F88B43F08904248B 1F E4CF 0063 :0000 __EH_prolog3_align ^003F ___security_cookie ........33C5508B4304894504FF75F464A1000000008945F48D45F464A300000000F2C3
518B4C240C895C240C8D5C240C508D442408F7D923C18D60F88B43F08904248B 22 E4CE 006F :0000 __EH_prolog3_catch_GS_align ^0042 ___security_cookie ........33C5508941FC8B4DF08965F08B4304894504FF75F464A1000000008945F48D45F464A300000000F2C3
518B4C240C895C240C8D5C240C508D442408F7D923C18D60F88B43F08904248B 20 6562 0067 :0000 __EH_prolog3_catch_align ^0040 ___security_cookie ........33C5508965F08B4304894504FF75F464A1000000008945F48D45F464A300000000F2C3
---";

// apds.dll / 4FD932C41DF96D019DC265E26E94B81B: __EH_prolog3_catch_align
const EH_PROLOG3_CATCH_ALIGN: [u8; 0x66] = [
    0x51, 0x8B, 0x4C, 0x24, 0x0C, 0x89, 0x5C, 0x24, 0x0C, 0x8D, 0x5C, 0x24, 0x0C, 0x50, 0x8D, 0x44,
    0x24, 0x08, 0xF7, 0xD9, 0x23, 0xC1, 0x8D, 0x60, 0xF8, 0x8B, 0x43, 0xF0, 0x89, 0x04, 0x24, 0x8B,
    0x43, 0xF8, 0x50, 0x8B, 0x43, 0xFC, 0x8B, 0x4B, 0xF4, 0x89, 0x6C, 0x24, 0x0C, 0x8D, 0x6C, 0x24,
    0x0C, 0xC7, 0x44, 0x24, 0x08, 0xFF, 0xFF, 0xFF, 0xFF, 0x51, 0x53, 0x2B, 0xE0, 0x56, 0x57, 0xA1,
    0xD4, 0xAD, 0x19, 0x01, 0x33, 0xC5, 0x50, 0x89, 0x65, 0xF0, 0x8B, 0x43, 0x04, 0x89, 0x45, 0x04,
    0xFF, 0x75, 0xF4, 0x64, 0xA1, 0x00, 0x00, 0x00, 0x00, 0x89, 0x45, 0xF4, 0x8D, 0x45, 0xF4, 0x64,
    0xA3, 0x00, 0x00, 0x00, 0x00, 0xC3,
];

fn name_of(sig: &FlirtSignature) -> Option<String> {
    sig.get_name().map(|n| String::from_utf8(n.clone()).unwrap())
}

#[test]
fn crc16_of_nothing_is_zero() {
    assert_eq!(crc16(&[]), 0);
}

#[test]
fn crc16_of_zero_bytes() {
    assert_eq!(crc16(&[0x00]), 0x78F0);
    assert_eq!(crc16(&[0x00, 0x00]), 0x470F);
    assert_eq!(crc16(&[0x00, 0x00, 0x00]), 0xCCC6);
    assert_eq!(crc16(&[0x00, 0x00, 0x00, 0x00]), 0xDEFC);
}

#[test]
fn crc16_of_eh_prolog3_body() {
    assert_eq!(crc16(&EH_PROLOG3_CATCH_ALIGN[0x20..0x40]), 0x6562);
}

#[test]
fn pat_parses_fields() {
    let sigs = pat::parse(EH_PROLOG3_PAT.as_bytes()).unwrap();
    assert_eq!(sigs.len(), 4);
    let s = &sigs[3];
    assert_eq!(s.size_of_bytes_crc16, 0x20);
    assert_eq!(s.crc16, 0x6562);
    assert_eq!(s.size_of_function, 0x67);
    assert_eq!(s.byte_sig.0.len(), 32);
    assert_eq!(s.byte_sig.0[0], SigElement::Byte(0x51));
    assert_eq!(s.names.len(), 2);
    assert_eq!(name_of(s).as_deref(), Some("__EH_prolog3_catch_align"));
    let tail = s.footer.as_ref().unwrap();
    assert_eq!(tail.0[0], SigElement::Wildcard);
}

#[test]
fn pat_rejects_malformed_line() {
    assert!(pat::parse(b"AABB 2 0000 0010 :0000 f\n---").is_err());
    assert!(pat::parse(b"AAXX 00 0000 0010 :0000 f\n---").is_err());
}

#[test]
fn flirt_match_eh_prolog3_catch_align() {
    let sigs = pat::parse(EH_PROLOG3_PAT.as_bytes()).unwrap();
    let m = sigs[3].create_matcher();
    assert!(m.is_match(&EH_PROLOG3_CATCH_ALIGN));
    assert!(!sigs[0].create_matcher().is_match(&EH_PROLOG3_CATCH_ALIGN));

    let set = FlirtSignatureSet::with_signatures(sigs);
    assert_eq!(set.matches(&EH_PROLOG3_CATCH_ALIGN), vec![3]);
    match set.identify(&EH_PROLOG3_CATCH_ALIGN) {
        NameMatch::Unique(n) => assert_eq!(n, b"__EH_prolog3_catch_align".to_vec()),
        other => panic!("unexpected {:?}", other),
    }
}

#[test]
fn flirt_crc_mismatch_rejects() {
    let sigs = pat::parse(EH_PROLOG3_PAT.as_bytes()).unwrap();
    let mut body = EH_PROLOG3_CATCH_ALIGN;
    body[0x30] ^= 0xFF;
    assert!(!sigs[3].create_matcher().is_match(&body));
}

fn sig(prefix: &[u8], fn_len: u16, name: &str) -> FlirtSignature {
    FlirtSignature {
        byte_sig: ByteSignature(prefix.iter().map(|&b| SigElement::Byte(b)).collect()),
        size_of_bytes_crc16: 0,
        crc16: 0,
        size_of_function: fn_len,
        names: vec![Symbol::Public(Name { offset: 0, name: name.as_bytes().to_vec() })],
        footer: None,
    }
}

#[test]
fn flirt_ambiguity_assigns_nothing() {
    let body = [0x55u8, 0x8B, 0xEC, 0x83, 0xEC, 0x10, 0x90, 0x90, 0xC3];
    let set = FlirtSignatureSet::with_signatures(vec![sig(&body[..8], 8, "first"), sig(&body[..8], 8, "second")]);
    assert!(matches!(set.identify(&body), NameMatch::Ambiguous));
    let same = FlirtSignatureSet::with_signatures(vec![sig(&body[..8], 8, "same"), sig(&body[..8], 8, "same")]);
    assert!(matches!(same.identify(&body), NameMatch::Unique(_)));
    assert!(matches!(same.identify(&[0u8; 9]), NameMatch::NoMatch));
}

#[test]
fn filter_drops_short_and_wild_signatures() {
    let mut wild = sig(&[0x55, 0x8B, 0xEC, 0x83, 0xEC, 0x10, 0x90, 0x90, 0x90, 0x90], 10, "wild");
    wild.byte_sig.0[3] = SigElement::Wildcard;
    let mut unnamed = sig(&[0u8; 8], 8, "x");
    unnamed.names = vec![Symbol::Local(Name { offset: 0, name: b"x".to_vec() })];
    assert!(!is_usable(&sig(&[0u8; 7], 7, "short")));
    assert!(!is_usable(&wild));
    assert!(!is_usable(&unnamed));
    assert!(is_usable(&sig(&[0u8; 8], 8, "ok")));
    let kept = filter_flirt_signatures(vec![sig(&[0u8; 7], 7, "short"), sig(&[1u8; 8], 8, "ok"), wild, unnamed]);
    assert_eq!(kept.len(), 1);
    assert_eq!(name_of(&kept[0]).as_deref(), Some("ok"));
}

#[test]
fn filter_wildcard_thresholds() {
    let mut s = sig(&[0u8; 0x18], 0x18, "a");
    for i in 0..0x10 {
        s.byte_sig.0[i] = SigElement::Wildcard;
    }
    assert!(is_usable(&s));
    let mut t = sig(&[0u8; 0x17], 0x17, "b");
    for i in 0..5 {
        t.byte_sig.0[i] = SigElement::Wildcard;
    }
    assert!(!is_usable(&t));
}

#[test]
fn pat_skips_blank_lines_and_stops_at_sentinel() {
    let text = b"\r\n0000000000000000 00 0000 0008 :0000 zeros\r\n\r\n   \n---\nnot a signature line\n";
    let sigs = pat::parse(text).unwrap();
    assert_eq!(sigs.len(), 1);
    assert_eq!(name_of(&sigs[0]).as_deref(), Some("zeros"));
    assert!(sigs[0].footer.is_none());
}

#[test]
fn pat_reads_local_and_reference_names() {
    let sigs = pat::parse(b"0000000000000000 00 0000 0010 :0000 f :0004@ g ^0008 h\n---").unwrap();
    let names: Vec<(u16, &str)> = sigs[0]
        .names
        .iter()
        .map(|s| match s {
            Symbol::Public(n) => (n.offset, "public"),
            Symbol::Local(n) => (n.offset, "local"),
            Symbol::Reference(n) => (n.offset, "reference"),
        })
        .collect();
    assert_eq!(names, vec![(0, "public"), (4, "local"), (8, "reference")]);
}

#[test]
fn pat_rejects_dangling_marker() {
    assert!(pat::parse(b"0000000000000000 00 0000 0010 :0000 f :0004\n---").is_err());
}
