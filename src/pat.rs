//! The text form of FLIRT signatures (`.pat`): one signature per line, the file ending
//! with a line `---`. A line holds the prefix pattern, the CRC16 length, the CRC16, the
//! function length, the names, and an optional tail pattern, separated by spaces.
use crate::flirt::{ByteSignature, FlirtSignature, Name, SigElement, Symbol};
use crate::nfa::{hex_digit, hex_digit_value, pattern_of_text, WILDCARD};
use vstd::prelude::*;

verus! {

/// The value of the hex digits `s`, if all of them are hex digits.
pub open spec fn hex_number(s: Seq<u8>) -> Option<int>
    decreases s.len(),
{
    if s.len() == 0 {
        Some(0)
    } else {
        match (hex_number(s.drop_last()), hex_digit(s.last())) {
            (Some(v), Some(d)) => Some(v * 16 + d),
            _ => None,
        }
    }
}

/// The value of the `n` hex digits `s`.
pub open spec fn hex_field(s: Seq<u8>, n: int) -> Option<int> {
    if s.len() == n {
        hex_number(s)
    } else {
        None
    }
}

proof fn lemma_hex_number_bound(s: Seq<u8>)
    requires
        hex_number(s) is Some,
    ensures
        0 <= hex_number(s).unwrap() < pow16(s.len()),
    decreases s.len(),
{
    if s.len() > 0 {
        lemma_hex_number_bound(s.drop_last());
    }
}

/// `16` to the power `n`.
pub open spec fn pow16(n: nat) -> int
    decreases n,
{
    if n == 0 {
        1
    } else {
        16 * pow16((n - 1) as nat)
    }
}

/// The value of the hex digits `s`, which are at most four.
pub fn parse_hex(s: &[u8]) -> (r: Option<u16>)
    requires
        s@.len() <= 4,
    ensures
        r is Some <==> hex_number(s@) is Some,
        r matches Some(v) ==> v == hex_number(s@).unwrap(),
{
    let mut v: u32 = 0;
    let mut i: usize = 0;
    while i < s.len()
        invariant
            i <= s@.len() <= 4,
            hex_number(s@.take(i as int)) == Some(v as int),
            v < pow16(i as nat),
        decreases s@.len() - i,
    {
        assert(s@.take(i + 1).drop_last() =~= s@.take(i as int));
        match hex_digit_value(s[i]) {
            Some(d) => {
                assert(pow16((i + 1) as nat) == 16 * pow16(i as nat));
                assert(pow16(4) == 65536) by { reveal_with_fuel(pow16, 5); }
                assert(pow16(i as nat) <= pow16(3)) by {
                    reveal_with_fuel(pow16, 4);
                }
                v = v * 16 + d as u32;
            },
            None => {
                assert(hex_number(s@.take(i + 1)) is None);
                assert(hex_number(s@) is None) by {
                    lemma_prefix_not_hex(s@, i + 1);
                }
                return None;
            },
        }
        i = i + 1;
    }
    assert(s@.take(i as int) =~= s@);
    assert(pow16(4) == 65536) by { reveal_with_fuel(pow16, 5); }
    assert(pow16(s@.len()) <= 65536) by {
        reveal_with_fuel(pow16, 5);
    }
    Some(v as u16)
}

proof fn lemma_prefix_not_hex(s: Seq<u8>, k: int)
    requires
        0 <= k <= s.len(),
        hex_number(s.take(k)) is None,
    ensures
        hex_number(s) is None,
    decreases s.len() - k,
{
    if k < s.len() {
        assert(s.take(k + 1).drop_last() =~= s.take(k));
        lemma_prefix_not_hex(s, k + 1);
    } else {
        assert(s.take(k) =~= s);
    }
}

/// The signature elements that text `s` spells: pairs of hex digits, or `..`.
pub fn parse_elements(s: &[u8]) -> (r: Option<Vec<SigElement>>)
    ensures
        r is Some <==> pattern_of_text(s@) is Some,
        r matches Some(v) ==> v@.map_values(|e: SigElement| crate::flirt::element_symbol(e)) == pattern_of_text(s@).unwrap(),
{
    let p = crate::nfa::Pattern::parse(s)?;
    let mut v: Vec<SigElement> = Vec::with_capacity(p.0.len());
    let mut i: usize = 0;
    while i < p.0.len()
        invariant
            i <= p.0@.len(),
            v@.len() == i,
            forall|k: int| 0 <= k < p@.len() ==> #[trigger] p@[k] <= WILDCARD,
            forall|k: int| 0 <= k < i ==> crate::flirt::element_symbol(#[trigger] v@[k]) == p@[k],
        decreases p.0@.len() - i,
    {
        let sym = p.0[i].0;
        assert(sym == p@[i as int]);
        if sym == WILDCARD {
            v.push(SigElement::Wildcard);
        } else {
            v.push(SigElement::Byte(sym as u8));
        }
        i = i + 1;
    }
    assert(v@.map_values(|e: SigElement| crate::flirt::element_symbol(e)) =~= p@);
    Some(v)
}

/// The byte for a space.
pub const SPACE: u8 = 0x20;

/// The words of `s`: its maximal runs of bytes other than a space, in order.
pub open spec fn words_of_text(s: Seq<u8>) -> Seq<Seq<u8>>
    decreases s.len(),
{
    if s.len() == 0 {
        Seq::empty()
    } else {
        let w = words_of_text(s.drop_last());
        let c = s.last();
        if c == SPACE {
            w
        } else if s.len() >= 2 && s[s.len() - 2] != SPACE {
            w.update(w.len() - 1, w.last().push(c))
        } else {
            w.push(seq![c])
        }
    }
}

/// The contents of a list of byte vectors.
pub open spec fn seqs_of(v: Seq<Vec<u8>>) -> Seq<Seq<u8>> {
    v.map_values(|w: Vec<u8>| w@)
}

/// Split `line` at spaces into its words.
pub fn split_words(line: &[u8]) -> (r: Vec<Vec<u8>>)
    ensures
        seqs_of(r@) == words_of_text(line@),
{
    let mut words: Vec<Vec<u8>> = Vec::new();
    let mut cur: Vec<u8> = Vec::new();
    let mut i: usize = 0;
    while i < line.len()
        invariant
            i <= line@.len(),
            (cur@.len() > 0) == (i > 0 && line@[i - 1] != SPACE),
            cur@.len() == 0 ==> seqs_of(words@) == words_of_text(line@.take(i as int)),
            cur@.len() > 0 ==> seqs_of(words@).push(cur@) == words_of_text(line@.take(i as int)),
        decreases line@.len() - i,
    {
        let c = line[i];
        let ghost w0 = words@;
        let ghost cur0 = cur@;
        assert(line@.take(i + 1).drop_last() =~= line@.take(i as int));
        if c == SPACE {
            if cur.len() > 0 {
                words.push(cur);
                cur = Vec::new();
                assert(seqs_of(words@) =~= seqs_of(w0).push(cur0));
            }
        } else {
            cur.push(c);
            proof {
                if cur0.len() > 0 {
                    let w = words_of_text(line@.take(i as int));
                    assert(w =~= seqs_of(w0).push(cur0));
                    assert(w.update(w.len() - 1, w.last().push(c)) =~= seqs_of(w0).push(cur@));
                } else {
                    assert(seq![c] =~= cur@);
                }
            }
        }
        i = i + 1;
    }
    assert(line@.take(i as int) =~= line@);
    if cur.len() > 0 {
        let ghost w0 = words@;
        let ghost cur0 = cur@;
        words.push(cur);
        assert(seqs_of(words@) =~= seqs_of(w0).push(cur0));
    }
    words
}

/// A word shaped like a symbol marker: `:` or `^`, four characters, and for a local
/// name `@`.
pub open spec fn symbol_shape(w: Seq<u8>) -> bool {
    (w.len() == 5 || (w.len() == 6 && w[5] == 0x40)) && (w[0] == 0x3a || w[0] == 0x5e)
}

/// A name as plain values: its kind (`0` public, `1` local, `2` reference), its offset,
/// and its text.
pub open spec fn symbol_view(s: Symbol) -> (u8, u16, Seq<u8>) {
    match s {
        Symbol::Public(n) => (0u8, n.offset, n.name@),
        Symbol::Local(n) => (1u8, n.offset, n.name@),
        Symbol::Reference(n) => (2u8, n.offset, n.name@),
    }
}

/// The kind of name that symbol marker `w` introduces.
pub open spec fn symbol_kind(w: Seq<u8>) -> u8 {
    if w[0] == 0x5e {
        2
    } else if w.len() == 6 {
        1
    } else {
        0
    }
}

/// The names and the tail pattern that words `i..` of a line spell: pairs of a symbol
/// marker and a name, then at most one tail pattern as the last word. `None` when they
/// spell neither.
pub open spec fn names_and_tail(w: Seq<Seq<u8>>, i: int) -> Option<(Seq<(u8, u16, Seq<u8>)>, Option<Seq<u16>>)>
    decreases w.len() - i,
{
    if i >= w.len() || i < 0 {
        Some((Seq::empty(), None))
    } else if !symbol_shape(w[i]) {
        if i + 1 == w.len() {
            match pattern_of_text(w[i]) {
                Some(p) => Some((Seq::empty(), Some(p))),
                None => None,
            }
        } else {
            None
        }
    } else if i + 1 >= w.len() {
        None
    } else {
        match hex_number(w[i].subrange(1, 5)) {
            None => None,
            Some(off) => match names_and_tail(w, i + 2) {
                Some((ns, t)) => Some((seq![(symbol_kind(w[i]), off as u16, w[i + 1])] + ns, t)),
                None => None,
            },
        }
    }
}

/// The tail pattern of a signature, as symbols.
pub open spec fn footer_view(f: Option<ByteSignature>) -> Option<Seq<u16>> {
    match f {
        Some(b) => Some(b@),
        None => None,
    }
}

/// A signature from the words of one line: prefix, CRC16 length, CRC16, function
/// length, then pairs of a symbol marker and a name, then at most one tail pattern.
/// `None` when a field is malformed.
pub fn parse_words(words: &Vec<Vec<u8>>) -> (r: Option<FlirtSignature>)
    ensures
        r is Some <==> {
            &&& words@.len() >= 4
            &&& pattern_of_text(words@[0]@) is Some
            &&& hex_field(words@[1]@, 2) is Some
            &&& hex_field(words@[2]@, 4) is Some
            &&& hex_field(words@[3]@, 4) is Some
            &&& names_and_tail(seqs_of(words@), 4) is Some
        },
        r matches Some(sig) ==> {
            &&& pattern_of_text(words@[0]@) == Some(sig.byte_sig@)
            &&& hex_field(words@[1]@, 2) == Some(sig.size_of_bytes_crc16 as int)
            &&& hex_field(words@[2]@, 4) == Some(sig.crc16 as int)
            &&& hex_field(words@[3]@, 4) == Some(sig.size_of_function as int)
            &&& names_and_tail(seqs_of(words@), 4) == Some(
                (sig.names@.map_values(|s: Symbol| symbol_view(s)), footer_view(sig.footer)),
            )
        },
{
    if words.len() < 4 {
        return None;
    }
    let prefix = parse_elements(words[0].as_slice())?;
    if words[1].len() != 2 || words[2].len() != 4 || words[3].len() != 4 {
        return None;
    }
    let crc_len = parse_hex(words[1].as_slice())?;
    let crc = parse_hex(words[2].as_slice())?;
    let fn_len = parse_hex(words[3].as_slice())?;
    assert(crc_len < 256) by {
        lemma_hex_number_bound(words@[1]@);
        reveal_with_fuel(pow16, 3);
    }
    let ghost ws = seqs_of(words@);
    let mut names: Vec<Symbol> = Vec::new();
    let mut footer: Option<ByteSignature> = None;
    let mut i: usize = 4;
    let ghost nv = |s: Symbol| symbol_view(s);
    while i < words.len()
        invariant
            4 <= i,
            words@.len() >= 4,
            pattern_of_text(words@[0]@) == Some(ByteSignature(prefix)@),
            hex_field(words@[1]@, 2) == Some(crc_len as int),
            hex_field(words@[2]@, 4) == Some(crc as int),
            hex_field(words@[3]@, 4) == Some(fn_len as int),
            crc_len < 256,
            ws == seqs_of(words@),
            footer is None,
            nv == (|s: Symbol| symbol_view(s)),
            match names_and_tail(ws, i as int) {
                Some((ns, t)) => names_and_tail(ws, 4) == Some((names@.map_values(nv) + ns, t)),
                None => names_and_tail(ws, 4) is None,
            },
        decreases words@.len() - i,
    {
        let w = &words[i];
        assert(ws[i as int] == w@);
        let is_sym = (w.len() == 5 || (w.len() == 6 && w[5] == 0x40)) && (w[0] == 0x3a || w[0] == 0x5e);
        if !is_sym {
            if i + 1 == words.len() {
                let tail = parse_elements(w.as_slice())?;
                let ghost tv = ByteSignature(tail)@;
                footer = Some(ByteSignature(tail));
                proof {
                    assert(tv == pattern_of_text(w@).unwrap());
                    assert(!symbol_shape(ws[i as int]));
                    assert(names_and_tail(ws, i as int) == Some((Seq::<(u8, u16, Seq<u8>)>::empty(), Some(tv))));
                    assert(names@.map_values(nv) + Seq::<(u8, u16, Seq<u8>)>::empty() =~= names@.map_values(nv));
                }
                let sig = FlirtSignature {
                    byte_sig: ByteSignature(prefix),
                    size_of_bytes_crc16: crc_len as u8,
                    crc16: crc,
                    size_of_function: fn_len,
                    names,
                    footer,
                };
                return Some(sig);
            }
            return None;
        }
        if i + 1 >= words.len() {
            return None;
        }
        let marker = crate::flirt::slice_of(w.as_slice(), 1, 5);
        let off = parse_hex(marker.as_slice())?;
        let name = Name { offset: off, name: crate::flirt::slice_of(words[i + 1].as_slice(), 0, words[i + 1].len()) };
        assert(ws[i + 1] == words@[i + 1]@);
        let ghost sv = (symbol_kind(w@), off, words@[i + 1]@);
        let ghost names0 = names@;
        if w[0] == 0x5e {
            names.push(Symbol::Reference(name));
        } else if w.len() == 6 {
            names.push(Symbol::Local(name));
        } else {
            names.push(Symbol::Public(name));
        }
        proof {
            assert(symbol_view(names@.last()) == sv);
            assert(names@.map_values(nv) =~= names0.map_values(nv).push(sv));
            match names_and_tail(ws, i + 2) {
                Some((ns, t)) => {
                    assert(names0.map_values(nv) + (seq![sv] + ns) =~= names@.map_values(nv) + ns);
                },
                None => {},
            }
        }
        i = i + 2;
    }
    proof {
        assert(names_and_tail(ws, i as int) == Some((Seq::<(u8, u16, Seq<u8>)>::empty(), None::<Seq<u16>>)));
        assert(names@.map_values(nv) + Seq::<(u8, u16, Seq<u8>)>::empty() =~= names@.map_values(nv));
    }
    let sig = FlirtSignature {
        byte_sig: ByteSignature(prefix),
        size_of_bytes_crc16: crc_len as u8,
        crc16: crc,
        size_of_function: fn_len,
        names,
        footer,
    };
    Some(sig)
}

/// The words parse as a signature line.
pub open spec fn words_parse(w: Seq<Seq<u8>>) -> bool {
    &&& w.len() >= 4
    &&& pattern_of_text(w[0]) is Some
    &&& hex_field(w[1], 2) is Some
    &&& hex_field(w[2], 4) is Some
    &&& hex_field(w[3], 4) is Some
    &&& names_and_tail(w, 4) is Some
}

/// `sig` is the signature that the words of a line spell.
pub open spec fn sig_of_words(w: Seq<Seq<u8>>, sig: FlirtSignature) -> bool {
    &&& w.len() >= 4
    &&& pattern_of_text(w[0]) == Some(sig.byte_sig@)
    &&& hex_field(w[1], 2) == Some(sig.size_of_bytes_crc16 as int)
    &&& hex_field(w[2], 4) == Some(sig.crc16 as int)
    &&& hex_field(w[3], 4) == Some(sig.size_of_function as int)
    &&& names_and_tail(w, 4) == Some((sig.names@.map_values(|s: Symbol| symbol_view(s)), footer_view(sig.footer)))
}

/// The position of the line break that ends the line holding position `i`, or the end.
pub open spec fn line_end(t: Seq<u8>, i: int) -> int
    decreases t.len() - i,
{
    if i >= t.len() || i < 0 || t[i] == 0x0a {
        i
    } else {
        line_end(t, i + 1)
    }
}

/// The text of the line from `i`, without its line break and a `\r` before it.
pub open spec fn line_text(t: Seq<u8>, i: int) -> Seq<u8> {
    let e = line_end(t, i);
    let le = if e > i && t[e - 1] == 0x0d { e - 1 } else { e };
    t.subrange(i, le)
}

/// The word lists of the signature lines from position `i` on: lines up to one that
/// reads `---`, skipping those without words.
pub open spec fn signature_lines(t: Seq<u8>, i: int) -> Seq<Seq<Seq<u8>>>
    decreases t.len() - i,
{
    if i >= t.len() || i < 0 {
        Seq::empty()
    } else {
        let e = line_end(t, i);
        let next = if i <= e < t.len() { e + 1 } else { t.len() as int };
        let line = line_text(t, i);
        if line == seq![0x2du8, 0x2du8, 0x2du8] {
            Seq::empty()
        } else if words_of_text(line).len() == 0 {
            signature_lines(t, next)
        } else {
            seq![words_of_text(line)] + signature_lines(t, next)
        }
    }
}

proof fn lemma_line_end_bounds(t: Seq<u8>, i: int)
    requires
        0 <= i <= t.len(),
    ensures
        i <= line_end(t, i) <= t.len(),
        line_end(t, i) < t.len() ==> t[line_end(t, i)] == 0x0a,
    decreases t.len() - i,
{
    if i < t.len() && t[i] != 0x0a {
        lemma_line_end_bounds(t, i + 1);
    }
}

/// Parse the text of a `.pat` file: one signature per line up to a line `---`. A line
/// break is `\n`, optionally preceded by `\r`; lines without words are skipped.
/// `ParseError` when a line does not spell a signature.
pub fn parse(text: &[u8]) -> (r: Result<Vec<FlirtSignature>, crate::workspace::WorkspaceError>)
    ensures
        r is Ok <==> forall|k: int|
            0 <= k < signature_lines(text@, 0).len() ==> words_parse(#[trigger] signature_lines(text@, 0)[k]),
        r matches Ok(sigs) ==> sigs@.len() == signature_lines(text@, 0).len() && forall|k: int|
            0 <= k < sigs@.len() ==> sig_of_words(signature_lines(text@, 0)[k], #[trigger] sigs@[k]),
        r matches Err(e) ==> e == crate::workspace::WorkspaceError::ParseError,
{
    let ghost all = signature_lines(text@, 0);
    let ghost mut done: Seq<Seq<Seq<u8>>> = Seq::empty();
    let mut sigs: Vec<FlirtSignature> = Vec::new();
    let mut start: usize = 0;
    assert(done + all =~= all);
    while start < text.len()
        invariant
            start <= text@.len(),
            all == signature_lines(text@, 0),
            all == done + signature_lines(text@, start as int),
            sigs@.len() == done.len(),
            forall|k: int| 0 <= k < done.len() ==> words_parse(#[trigger] done[k]),
            forall|k: int| 0 <= k < sigs@.len() ==> sig_of_words(done[k], #[trigger] sigs@[k]),
        decreases text@.len() - start,
    {
        let mut end = start;
        while end < text.len() && text[end] != 0x0a
            invariant
                start <= end <= text@.len(),
                line_end(text@, start as int) == line_end(text@, end as int),
            decreases text@.len() - end,
        {
            end = end + 1;
        }
        assert(line_end(text@, end as int) == end);
        proof {
            lemma_line_end_bounds(text@, start as int);
        }
        let mut line_end_pos = end;
        if line_end_pos > start && text[line_end_pos - 1] == 0x0d {
            line_end_pos = line_end_pos - 1;
        }
        let line = crate::flirt::slice_of(text, start, line_end_pos);
        assert(line@ == line_text(text@, start as int));
        let ghost here = start as int;
        start = if end < text.len() { end + 1 } else { end };
        if line.len() == 3 && line[0] == 0x2d && line[1] == 0x2d && line[2] == 0x2d {
            assert(line@ =~= seq![0x2du8, 0x2du8, 0x2du8]);
            assert(signature_lines(text@, here) == Seq::<Seq<Seq<u8>>>::empty());
            assert(all =~= done);
            return Ok(sigs);
        }
        assert(line@ != seq![0x2du8, 0x2du8, 0x2du8]) by {
            if line@ == seq![0x2du8, 0x2du8, 0x2du8] {
                assert(line@.len() == 3 && line@[0] == 0x2d && line@[1] == 0x2d && line@[2] == 0x2d);
            }
        }
        let words = split_words(line.as_slice());
        if words.len() == 0 {
            continue;
        }
        match parse_words(&words) {
            Some(sig) => {
                proof {
                    assert(signature_lines(text@, here) == seq![seqs_of(words@)] + signature_lines(text@, start as int));
                    done = done.push(seqs_of(words@));
                    assert(all =~= done + signature_lines(text@, start as int));
                }
                sigs.push(sig);
            },
            None => {
                proof {
                    assert(signature_lines(text@, here) == seq![seqs_of(words@)] + signature_lines(text@, start as int));
                    assert(all[done.len() as int] == seqs_of(words@));
                    assert(!words_parse(seqs_of(words@)));
                }
                return Err(crate::workspace::WorkspaceError::ParseError);
            },
        }
    }
    assert(signature_lines(text@, start as int) == Seq::<Seq<Seq<u8>>>::empty());
    assert(all =~= done);
    Ok(sigs)
}

} // verus!
