//! FLIRT function signatures: the signature record, IDA's CRC16, the filter that keeps
//! signatures specific enough to use, and matching of a set of signatures against the
//! bytes of a function.
use crate::nfa::{
    pattern_matches, symbols_valid, NFABuilder, Pattern, Symbol as NfaSymbol, NFA, WILDCARD,
};
use vstd::prelude::*;

verus! {

/// The polynomial of IDA's CRC16 (bit-reflected).
pub const CRC16_POLY: u16 = 0x8408;

/// Longest prefix pattern of a signature.
pub const MAX_PREFIX: u16 = 32;

/// One bit step of the CRC over the low bit of `b`.
pub open spec fn crc_bit(crc: u16, b: u8) -> u16 {
    if ((crc ^ (b as u16)) & 1u16) != 0 {
        ((crc >> 1u16) ^ CRC16_POLY) as u16
    } else {
        (crc >> 1u16) as u16
    }
}

/// `n` bit steps of the CRC over the low `n` bits of `b`, lowest first.
pub open spec fn crc_bits(crc: u16, b: u8, n: nat) -> u16
    decreases n,
{
    if n == 0 {
        crc
    } else {
        crc_bits(crc_bit(crc, b), (b >> 1u8) as u8, (n - 1) as nat)
    }
}

/// The CRC register after the bytes of `buf`, starting from `0xFFFF`.
pub open spec fn crc_register(buf: Seq<u8>) -> u16
    decreases buf.len(),
{
    if buf.len() == 0 {
        0xFFFFu16
    } else {
        crc_bits(crc_register(buf.drop_last()), buf.last(), 8)
    }
}

/// IDA's CRC16 of `buf`: `0` for no bytes; else the complemented register with its two
/// bytes swapped.
pub open spec fn ida_crc16(buf: Seq<u8>) -> u16 {
    if buf.len() == 0 {
        0
    } else {
        let c = (!crc_register(buf)) as u16;
        (((c & 0xFFu16) << 8u16) | (c >> 8u16)) as u16
    }
}

/// Compute IDA's CRC16 of `buf`, as FLIRT signatures record it.
pub fn crc16(buf: &[u8]) -> (r: u16)
    ensures
        r == ida_crc16(buf@),
{
    if buf.len() == 0 {
        return 0;
    }
    let mut crc: u16 = 0xFFFF;
    let mut i: usize = 0;
    while i < buf.len()
        invariant
            i <= buf@.len(),
            crc == crc_register(buf@.subrange(0, i as int)),
        decreases buf@.len() - i,
    {
        let b0 = buf[i];
        let mut b = b0;
        let ghost crc0 = crc;
        let mut bit: usize = 0;
        while bit < 8
            invariant
                bit <= 8,
                crc_bits(crc, b, (8 - bit) as nat) == crc_bits(crc0, b0, 8),
            decreases 8 - bit,
        {
            if ((crc ^ (b as u16)) & 1) != 0 {
                crc = (crc >> 1) ^ CRC16_POLY;
            } else {
                crc = crc >> 1;
            }
            b = b >> 1;
            bit = bit + 1;
        }
        assert(buf@.subrange(0, i + 1).drop_last() =~= buf@.subrange(0, i as int));
        i = i + 1;
    }
    assert(buf@.subrange(0, buf@.len() as int) =~= buf@);
    let c = !crc;
    ((c & 0xFF) << 8) | (c >> 8)
}

/// One element of a byte signature.
#[derive(Debug, Clone, Copy, PartialEq, Eq, Structural)]
pub enum SigElement {
    Byte(u8),
    Wildcard,
}

/// The pattern symbol of a signature element.
pub open spec fn element_symbol(e: SigElement) -> u16 {
    match e {
        SigElement::Byte(b) => b as u16,
        SigElement::Wildcard => WILDCARD,
    }
}

/// A sequence of bytes and single-byte wildcards.
#[derive(Debug)]
pub struct ByteSignature(pub Vec<SigElement>);

impl View for ByteSignature {
    type V = Seq<u16>;

    open spec fn view(&self) -> Seq<u16> {
        self.0@.map_values(|e: SigElement| element_symbol(e))
    }
}

/// A name at an offset into the function.
#[derive(Debug)]
pub struct Name {
    pub offset: u16,
    pub name: Vec<u8>,
}

/// A name that a signature carries.
#[derive(Debug)]
pub enum Symbol {
    Public(Name),
    Local(Name),
    Reference(Name),
}

/// A public name at offset zero: the name of the function itself.
pub open spec fn is_display(s: Symbol) -> bool {
    s matches Symbol::Public(n) && n.offset == 0
}

/// The first public name at offset zero among `names`, if any.
pub open spec fn display_name(names: Seq<Symbol>) -> Option<Seq<u8>>
    decreases names.len(),
{
    if names.len() == 0 {
        None
    } else if is_display(names[0]) {
        match names[0] {
            Symbol::Public(n) => Some(n.name@),
            _ => None,
        }
    } else {
        display_name(names.drop_first())
    }
}

/// One FLIRT signature.
#[derive(Debug)]
pub struct FlirtSignature {
    /// Up to 32 leading bytes of the function, with wildcards.
    pub byte_sig: ByteSignature,
    /// Number of bytes after the prefix that the CRC16 covers.
    pub size_of_bytes_crc16: u8,
    pub crc16: u16,
    pub size_of_function: u16,
    pub names: Vec<Symbol>,
    pub footer: Option<ByteSignature>,
}

/// The part of the prefix that must match: no longer than the function.
pub open spec fn match_prefix(sig: FlirtSignature) -> Seq<u16> {
    if (sig.size_of_function as int) < sig.byte_sig@.len() {
        sig.byte_sig@.take(sig.size_of_function as int)
    } else {
        sig.byte_sig@
    }
}

/// `buf` starts with the function that `sig` describes: the prefix matches, and when the
/// signature covers bytes after the prefix by a CRC16, they are there and have that CRC.
pub open spec fn signature_matches(sig: FlirtSignature, buf: Seq<u8>) -> bool {
    let start = sig.byte_sig@.len() as int;
    let end = start + sig.size_of_bytes_crc16 as int;
    &&& pattern_matches(match_prefix(sig), buf)
    &&& (sig.size_of_bytes_crc16 > 0 ==> end <= buf.len() && ida_crc16(buf.subrange(start, end))
        == sig.crc16)
}

/// Number of wildcards in `s`.
pub open spec fn wildcard_count(s: Seq<u16>) -> nat
    decreases s.len(),
{
    if s.len() == 0 {
        0
    } else {
        wildcard_count(s.drop_last()) + if s.last() == WILDCARD {
            1nat
        } else {
            0nat
        }
    }
}

/// The signature names its function, and is long and specific enough to be trusted:
/// at least 8 bytes; no wildcard under 16 bytes; at most 4 under 24; at most 16 under 32.
pub open spec fn usable(sig: FlirtSignature) -> bool {
    let n = sig.size_of_function;
    let wc = wildcard_count(sig.byte_sig@.take(if (n as int) < sig.byte_sig@.len() {
        n as int
    } else {
        sig.byte_sig@.len() as int
    }));
    &&& display_name(sig.names@) is Some
    &&& n >= 8
    &&& !(n < 0x10 && wc > 0)
    &&& !(n < 0x18 && wc > 4)
    &&& !(n < 0x20 && wc > 0x10)
}

impl FlirtSignature {
    /// The name of the function: the first public name at offset zero.
    pub fn get_name(&self) -> (r: Option<&Vec<u8>>)
        ensures
            r matches Some(n) ==> display_name(self.names@) == Some(n@),
            r is None ==> display_name(self.names@) is None,
    {
        let mut i: usize = 0;
        assert(self.names@.subrange(0, self.names@.len() as int) =~= self.names@);
        while i < self.names.len()
            invariant
                i <= self.names@.len(),
                display_name(self.names@) == display_name(self.names@.subrange(i as int, self.names@.len() as int)),
            decreases self.names@.len() - i,
        {
            let ghost rest = self.names@.subrange(i as int, self.names@.len() as int);
            assert(rest.drop_first() =~= self.names@.subrange(i + 1, self.names@.len() as int));
            assert(rest[0] == self.names@[i as int]);
            if let Symbol::Public(name) = &self.names[i] {
                if name.offset == 0 {
                    return Some(&name.name);
                }
            }
            i = i + 1;
        }
        assert(self.names@.subrange(i as int, self.names@.len() as int).len() == 0);
        None
    }

    /// A matcher for this one signature.
    pub fn create_matcher(&self) -> (r: FlirtSignatureMatcher<'_>)
        ensures
            r.sig == self,
    {
        FlirtSignatureMatcher::new(self)
    }
}

/// Number of wildcards among the first `n` elements of `elems`.
fn count_wildcards(elems: &Vec<SigElement>, n: usize) -> (r: usize)
    requires
        n <= elems@.len(),
    ensures
        r == wildcard_count(elems@.map_values(|e: SigElement| element_symbol(e)).take(n as int)),
{
    let ghost v = elems@.map_values(|e: SigElement| element_symbol(e));
    let mut count: usize = 0;
    let mut i: usize = 0;
    while i < n
        invariant
            n <= elems@.len(),
            v == elems@.map_values(|e: SigElement| element_symbol(e)),
            i <= n,
            count == wildcard_count(v.take(i as int)),
            count <= i,
        decreases n - i,
    {
        assert(v.take(i + 1).drop_last() =~= v.take(i as int));
        if let SigElement::Wildcard = elems[i] {
            count = count + 1;
        }
        i = i + 1;
    }
    count
}

/// Is `sig` named and specific enough to be used?
pub fn is_usable(sig: &FlirtSignature) -> (r: bool)
    ensures
        r == usable(*sig),
{
    if sig.get_name().is_none() {
        return false;
    }
    let n = sig.size_of_function;
    let len = sig.byte_sig.0.len();
    let take = if (n as usize) < len { n as usize } else { len };
    let wc = count_wildcards(&sig.byte_sig.0, take);
    if n < 0x8 {
        false
    } else if n < 0x10 && wc > 0 {
        false
    } else if n < 0x18 && wc > 4 {
        false
    } else if n < 0x20 && wc > 0x10 {
        false
    } else {
        true
    }
}

/// Keep the signatures that are usable, in order.
pub fn filter_flirt_signatures(sigs: Vec<FlirtSignature>) -> (r: Vec<FlirtSignature>)
    ensures
        r@ == sigs@.filter(|s: FlirtSignature| usable(s)),
{
    let ghost all = sigs@;
    let mut out: Vec<FlirtSignature> = Vec::new();
    for sig in it: sigs.into_iter()
        invariant
            it.seq() == all,
            out@ == all.take(it.index() as int).filter(|s: FlirtSignature| usable(s)),
    {
        let ghost k = it.index();
        let keep = is_usable(&sig);
        proof {
            assert(all.take(k + 1).drop_last() =~= all.take(k as int));
            assert(all.take(k + 1).last() == sig);
            reveal(Seq::filter);
        }
        if keep {
            out.push(sig);
        }
    }
    assert(all.take(all.len() as int) =~= all);
    out
}

/// Matches one signature against the bytes of a function.
pub struct FlirtSignatureMatcher<'a> {
    pub sig: &'a FlirtSignature,
}

impl<'a> FlirtSignatureMatcher<'a> {
    pub fn new(sig: &'a FlirtSignature) -> (r: FlirtSignatureMatcher<'a>)
        ensures
            r.sig == sig,
    {
        FlirtSignatureMatcher { sig }
    }

    /// Does `buf` start with the function that the signature describes?
    pub fn is_match(&self, buf: &[u8]) -> (r: bool)
        ensures
            r == signature_matches(*self.sig, buf@),
    {
        let elems = &self.sig.byte_sig.0;
        let ghost pre = match_prefix(*self.sig);
        let n = if (self.sig.size_of_function as usize) < elems.len() {
            self.sig.size_of_function as usize
        } else {
            elems.len()
        };
        assert(pre.len() == n);
        if n > buf.len() {
            return false;
        }
        let mut i: usize = 0;
        while i < n
            invariant
                n == pre.len(),
                n <= buf@.len(),
                n <= elems@.len(),
                pre == match_prefix(*self.sig),
                *elems == self.sig.byte_sig.0,
                i <= n,
                forall|j: int| 0 <= j < i ==> crate::nfa::symbol_accepts(#[trigger] pre[j], buf@[j]),
            decreases n - i,
        {
            assert(pre[i as int] == element_symbol(elems@[i as int]));
            match elems[i] {
                SigElement::Byte(b) => {
                    if b != buf[i] {
                        return false;
                    }
                },
                SigElement::Wildcard => {},
            }
            i = i + 1;
        }
        if self.sig.size_of_bytes_crc16 > 0 {
            let start = elems.len();
            if start > buf.len() || (self.sig.size_of_bytes_crc16 as usize) > buf.len() - start {
                return false;
            }
            let end = start + self.sig.size_of_bytes_crc16 as usize;
            let crc = crc16(&slice_of(buf, start, end));
            if crc != self.sig.crc16 {
                return false;
            }
        }
        true
    }
}

/// The bytes `buf[start..end]`.
pub fn slice_of(buf: &[u8], start: usize, end: usize) -> (r: Vec<u8>)
    requires
        start <= end <= buf@.len(),
    ensures
        r@ == buf@.subrange(start as int, end as int),
{
    let mut r: Vec<u8> = Vec::with_capacity(end - start);
    let mut i: usize = start;
    while i < end
        invariant
            start <= i <= end <= buf@.len(),
            r@ == buf@.subrange(start as int, i as int),
        decreases end - i,
    {
        r.push(buf[i]);
        i = i + 1;
        assert(r@ =~= buf@.subrange(start as int, i as int));
    }
    r
}

/// Are the two byte strings equal?
pub fn bytes_equal(a: &[u8], b: &[u8]) -> (r: bool)
    ensures
        r == (a@ == b@),
{
    if a.len() != b.len() {
        return false;
    }
    let mut i: usize = 0;
    while i < a.len()
        invariant
            a@.len() == b@.len(),
            i <= a@.len(),
            forall|j: int| 0 <= j < i ==> a@[j] == b@[j],
        decreases a@.len() - i,
    {
        if a[i] != b[i] {
            return false;
        }
        i = i + 1;
    }
    assert(a@ =~= b@);
    true
}

/// The prefix pattern of `sig` that the matcher runs.
fn prefix_pattern(sig: &FlirtSignature) -> (r: Pattern)
    ensures
        r@ == match_prefix(*sig),
{
    let elems = &sig.byte_sig.0;
    let n = if (sig.size_of_function as usize) < elems.len() {
        sig.size_of_function as usize
    } else {
        elems.len()
    };
    let ghost pre = match_prefix(*sig);
    let mut syms: Vec<NfaSymbol> = Vec::with_capacity(n);
    let mut i: usize = 0;
    while i < n
        invariant
            n == pre.len(),
            n <= elems@.len(),
            pre == match_prefix(*sig),
            *elems == sig.byte_sig.0,
            i <= n,
            syms@.len() == i,
            forall|j: int| 0 <= j < i ==> (#[trigger] syms@[j]).0 == pre[j],
        decreases n - i,
    {
        assert(pre[i as int] == element_symbol(elems@[i as int]));
        let sym = match elems[i] {
            SigElement::Byte(b) => NfaSymbol::from_byte(b),
            SigElement::Wildcard => NfaSymbol::wildcard(),
        };
        syms.push(sym);
        i = i + 1;
    }
    let r = Pattern(syms);
    assert(r@ =~= pre);
    r
}

/// What a set of signatures says of the start of a function.
#[derive(Debug)]
pub enum NameMatch {
    /// No signature matches.
    NoMatch,
    /// Every matching signature gives this name.
    Unique(Vec<u8>),
    /// Matching signatures give different names.
    Ambiguous,
}

/// A set of signatures with the prefix matcher built over them.
pub struct FlirtSignatureSet {
    sigs: Vec<FlirtSignature>,
    nfa: NFA,
}

impl FlirtSignatureSet {
    /// The signatures, in order.
    pub closed spec fn signatures(&self) -> Seq<FlirtSignature> {
        self.sigs@
    }

    /// The matcher holds the prefix of each signature, at the signature's index.
    pub closed spec fn wf(&self) -> bool {
        &&& self.nfa.wf()
        &&& self.sigs@.len() <= usize::MAX
        &&& self.nfa.patterns_view().len() == self.sigs@.len()
        &&& forall|i: int|
            0 <= i < self.sigs@.len() ==> #[trigger] self.nfa.patterns_view()[i] == match_prefix(
                self.sigs@[i],
            )
    }

    /// Build the set and its matcher.
    pub fn with_signatures(sigs: Vec<FlirtSignature>) -> (r: FlirtSignatureSet)
        ensures
            r.wf(),
            r.signatures() == sigs@,
    {
        let mut b: NFABuilder = NFA::new();
        let mut i: usize = 0;
        while i < sigs.len()
            invariant
                i <= sigs@.len(),
                b.patterns_view().len() == i,
                forall|j: int| 0 <= j < i ==> #[trigger] b.patterns_view()[j] == match_prefix(sigs@[j]),
            decreases sigs@.len() - i,
        {
            b.add_pattern(prefix_pattern(&sigs[i]));
            i = i + 1;
        }
        proof {
            assert forall|j: int| 0 <= j < b.patterns_view().len() implies symbols_valid(
                #[trigger] b.patterns_view()[j],
            ) by {
                let sig = sigs@[j];
                let p = match_prefix(sig);
                assert forall|x: int| 0 <= x < p.len() implies #[trigger] p[x] <= WILDCARD by {
                    assert(p[x] == sig.byte_sig@[x]);
                    assert(sig.byte_sig@[x] == element_symbol(sig.byte_sig.0@[x]));
                }
            }
        }
        let nfa = b.build();
        FlirtSignatureSet { sigs, nfa }
    }

    /// Indices of the signatures that match the start of `buf`: the prefix stage, then
    /// the CRC16 stage on each candidate.
    pub fn matches(&self, buf: &[u8]) -> (r: Vec<usize>)
        requires
            self.wf(),
        ensures
            forall|x: int| 0 <= x < r@.len() ==> (#[trigger] r@[x]) < self.signatures().len(),
            forall|i: int|
                0 <= i < self.signatures().len() ==> (r@.contains(i as usize) <==> signature_matches(
                    #[trigger] self.signatures()[i],
                    buf@,
                )),
    {
        let candidates = self.nfa.find_matches(buf);
        let mut out: Vec<usize> = Vec::new();
        let mut x: usize = 0;
        while x < candidates.len()
            invariant
                self.wf(),
                x <= candidates@.len(),
                forall|y: int| 0 <= y < candidates@.len() ==> (#[trigger] candidates@[y]) < self.sigs@.len(),
                forall|i: int|
                    0 <= i < self.sigs@.len() ==> (candidates@.contains(i as usize) <==> pattern_matches(
                        #[trigger] self.nfa.patterns_view()[i],
                        buf@,
                    )),
                forall|y: int| 0 <= y < out@.len() ==> (#[trigger] out@[y]) < self.sigs@.len(),
                forall|i: int|
                    #![trigger out@.contains(i as usize)]
                    0 <= i < self.sigs@.len() ==> (out@.contains(i as usize) <==> (
                    candidates@.subrange(0, x as int).contains(i as usize) && signature_matches(
                        self.sigs@[i],
                        buf@,
                    ))),
            decreases candidates@.len() - x,
        {
            let c = candidates[x];
            let m = FlirtSignatureMatcher::new(&self.sigs[c]);
            let ok = m.is_match(buf);
            assert(ok == signature_matches(self.sigs@[c as int], buf@));
            let ghost prev = out@;
            if ok {
                out.push(c);
            }
            proof {
                assert(candidates@.subrange(0, x + 1) =~= candidates@.subrange(0, x as int).push(c));
                assert forall|i: int|
                    #![trigger out@.contains(i as usize)]
                    0 <= i < self.sigs@.len() implies (out@.contains(i as usize) <==> (
                    candidates@.subrange(0, x + 1).contains(i as usize) && signature_matches(
                        self.sigs@[i],
                        buf@,
                    ))) by {
                    assert(prev.contains(i as usize) <==> (candidates@.subrange(0, x as int).contains(
                        i as usize,
                    ) && signature_matches(self.sigs@[i], buf@)));
                    crate::nfa::lemma_push_contains(candidates@.subrange(0, x as int), c, i as usize);
                    if ok {
                        crate::nfa::lemma_push_contains(prev, c, i as usize);
                    }
                }
            }
            x = x + 1;
        }
        proof {
            assert(candidates@.subrange(0, candidates@.len() as int) =~= candidates@);
            assert forall|i: int|
                0 <= i < self.signatures().len() implies (out@.contains(i as usize) <==> signature_matches(
                    #[trigger] self.signatures()[i],
                    buf@,
                )) by {
                assert(out@.contains(i as usize) <==> (candidates@.contains(i as usize)
                    && signature_matches(self.sigs@[i], buf@)));
                assert(candidates@.contains(i as usize) <==> pattern_matches(
                    self.nfa.patterns_view()[i],
                    buf@,
                ));
            }
        }
        out
    }

    /// The name that the signatures give the function at the start of `buf`: none when
    /// no signature matches, the shared name when all matching signatures agree, and
    /// `Ambiguous` when two of them name it differently.
    pub fn identify(&self, buf: &[u8]) -> (r: NameMatch)
        requires
            self.wf(),
            forall|i: int|
                0 <= i < self.signatures().len() ==> (display_name(
                    #[trigger] self.signatures()[i].names@,
                ) is Some),
        ensures
            r is NoMatch <==> !exists|i: int|
                0 <= i < self.signatures().len() && signature_matches(
                    #[trigger] self.signatures()[i],
                    buf@,
                ),
            r is Ambiguous <==> exists|i: int, j: int|
                0 <= i < self.signatures().len() && 0 <= j < self.signatures().len()
                    && signature_matches(#[trigger] self.signatures()[i], buf@) && signature_matches(
                    #[trigger] self.signatures()[j],
                    buf@,
                ) && display_name(self.signatures()[i].names@) != display_name(
                    self.signatures()[j].names@,
                ),
            r matches NameMatch::Unique(n) ==> forall|i: int|
                0 <= i < self.signatures().len() && signature_matches(
                    #[trigger] self.signatures()[i],
                    buf@,
                ) ==> display_name(self.signatures()[i].names@) == Some(n@),
    {
        let m = self.matches(buf);
        if m.len() == 0 {
            proof {
                assert forall|i: int|
                    0 <= i < self.signatures().len() implies !signature_matches(
                    #[trigger] self.signatures()[i],
                    buf@,
                ) by {
                    if signature_matches(self.signatures()[i], buf@) {
                        assert(m@.contains(i as usize));
                    }
                }
            }
            return NameMatch::NoMatch;
        }
        let first = m[0];
        assert(signature_matches(self.signatures()[first as int], buf@)) by {
            assert(m@.contains(first));
        }
        let name1 = match self.sigs[first].get_name() {
            Some(n) => n,
            None => {
                assert(false);
                return NameMatch::NoMatch;
            },
        };
        let mut y: usize = 1;
        while y < m.len()
            invariant
                1 <= y <= m@.len(),
                self.wf(),
                forall|i: int|
                    0 <= i < self.signatures().len() ==> (display_name(
                        #[trigger] self.signatures()[i].names@,
                    ) is Some),
                forall|z: int| 0 <= z < m@.len() ==> (#[trigger] m@[z]) < self.signatures().len(),
                forall|i: int|
                    0 <= i < self.signatures().len() ==> (m@.contains(i as usize) <==> signature_matches(
                        #[trigger] self.signatures()[i],
                        buf@,
                    )),
                m@[0] == first,
                first < self.sigs@.len(),
                display_name(self.sigs@[first as int].names@) == Some(name1@),
                forall|z: int| 0 <= z < m@.len() ==> (#[trigger] m@[z]) < self.sigs@.len(),
                forall|z: int|
                    0 <= z < y ==> display_name(self.sigs@[(#[trigger] m@[z]) as int].names@) == Some(
                        name1@,
                    ),
            decreases m@.len() - y,
        {
            let other = m[y];
            match self.sigs[other].get_name() {
                Some(n2) => {
                    if !bytes_equal(name1.as_slice(), n2.as_slice()) {
                        proof {
                            assert(m@.contains(other));
                            assert(m@.contains(first));
                            assert(signature_matches(self.signatures()[other as int], buf@));
                            assert(signature_matches(self.signatures()[first as int], buf@));
                        }
                        return NameMatch::Ambiguous;
                    }
                },
                None => {
                    proof {
                        assert(display_name(self.signatures()[other as int].names@) is Some);
                    }
                },
            }
            y = y + 1;
        }
        proof {
            assert forall|i: int|
                0 <= i < self.signatures().len() && signature_matches(
                    #[trigger] self.signatures()[i],
                    buf@,
                ) implies display_name(self.signatures()[i].names@) == Some(name1@) by {
                assert(m@.contains(i as usize));
                let z = choose|z: int| 0 <= z < m@.len() && #[trigger] m@[z] == i as usize;
                assert(display_name(self.sigs@[m@[z] as int].names@) == Some(name1@));
            }
        }
        let name = slice_of(name1.as_slice(), 0, name1.len());
        NameMatch::Unique(name)
    }
}

} // verus!
