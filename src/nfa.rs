//! A multi-pattern matcher over byte patterns with single-byte wildcards, anchored at
//! the start of the input. The states form a trie over a 257-symbol alphabet: the 256
//! byte values and one wildcard. Each state carries the set of patterns still alive
//! in it.
use vstd::prelude::*;
use vstd::set_lib::set_int_range;

verus! {

/// The symbol that stands for any one byte.
pub const WILDCARD: u16 = 0x100;

/// Number of symbols: every byte value and the wildcard.
pub const NUM_SYMBOLS: usize = 257;

/// One element of a pattern: a byte value (`0..=0xFF`) or `WILDCARD`.
#[derive(Clone, Copy, Debug, PartialEq, Eq, Structural)]
pub struct Symbol(pub u16);

impl Symbol {
    /// The symbol for byte `v`.
    pub fn from_byte(v: u8) -> (r: Symbol)
        ensures
            r.0 == v as u16,
    {
        Symbol(v as u16)
    }

    /// The wildcard symbol.
    pub fn wildcard() -> (r: Symbol)
        ensures
            r.0 == WILDCARD,
    {
        Symbol(WILDCARD)
    }
}

/// Symbol `s` accepts byte `b`.
pub open spec fn symbol_accepts(s: u16, b: u8) -> bool {
    s == WILDCARD || s == b as u16
}

/// Every symbol of `p` is a byte value or the wildcard.
pub open spec fn symbols_valid(p: Seq<u16>) -> bool {
    forall|j: int| 0 <= j < p.len() ==> #[trigger] p[j] <= WILDCARD
}

/// Pattern `p` matches the start of `buf`: `buf` is at least as long, and each symbol
/// accepts the byte at its position.
pub open spec fn pattern_matches(p: Seq<u16>, buf: Seq<u8>) -> bool {
    p.len() <= buf.len() && forall|j: int| 0 <= j < p.len() ==> symbol_accepts(#[trigger] p[j], buf[j])
}

/// The value of an ASCII hex digit.
pub open spec fn hex_digit(c: u8) -> Option<u8> {
    if 0x30 <= c <= 0x39 {
        Some((c - 0x30) as u8)
    } else if 0x41 <= c <= 0x46 {
        Some((c - 0x41 + 10) as u8)
    } else if 0x61 <= c <= 0x66 {
        Some((c - 0x61 + 10) as u8)
    } else {
        None
    }
}

/// The symbol written by the two characters `a b`: two hex digits, or `..`.
pub open spec fn pair_symbol(a: u8, b: u8) -> Option<u16> {
    if a == 0x2e && b == 0x2e {
        Some(WILDCARD)
    } else if hex_digit(a) is Some && hex_digit(b) is Some {
        Some((hex_digit(a).unwrap() * 16 + hex_digit(b).unwrap()) as u16)
    } else {
        None
    }
}

/// The pattern that text `s` spells, two characters per symbol; `None` when `s` is
/// empty, has odd length, or holds a pair that is neither hex nor `..`.
pub open spec fn pattern_of_text(s: Seq<u8>) -> Option<Seq<u16>> {
    if s.len() > 0 && s.len() % 2 == 0 && forall|j: int|
        0 <= j < s.len() / 2 ==> (#[trigger] pair_symbol(s[2 * j], s[2 * j + 1])) is Some {
        Some(Seq::new((s.len() / 2) as nat, |j: int| pair_symbol(s[2 * j], s[2 * j + 1]).unwrap()))
    } else {
        None
    }
}

/// The value of an ASCII hex digit, if `c` is one.
pub fn hex_digit_value(c: u8) -> (r: Option<u8>)
    ensures
        r == hex_digit(c),
{
    if 0x30 <= c && c <= 0x39 {
        Some(c - 0x30)
    } else if 0x41 <= c && c <= 0x46 {
        Some(c - 0x41 + 10)
    } else if 0x61 <= c && c <= 0x66 {
        Some(c - 0x61 + 10)
    } else {
        None
    }
}

fn parse_pair(a: u8, b: u8) -> (r: Option<Symbol>)
    ensures
        r matches Some(s) ==> pair_symbol(a, b) == Some(s.0),
        r is None ==> pair_symbol(a, b) is None,
{
    if a == 0x2e && b == 0x2e {
        return Some(Symbol::wildcard());
    }
    match (hex_digit_value(a), hex_digit_value(b)) {
        (Some(h), Some(l)) => Some(Symbol((h as u16) * 16 + l as u16)),
        _ => None,
    }
}

/// A sequence of symbols.
pub struct Pattern(pub Vec<Symbol>);

impl View for Pattern {
    type V = Seq<u16>;

    open spec fn view(&self) -> Seq<u16> {
        self.0@.map_values(|s: Symbol| s.0)
    }
}

impl Pattern {
    /// Parse text such as `AABB..DD`: pairs of hex digits, or `..` for a wildcard.
    pub fn parse(s: &[u8]) -> (r: Option<Pattern>)
        ensures
            r is Some <==> pattern_of_text(s@) is Some,
            r matches Some(p) ==> p@ == pattern_of_text(s@).unwrap(),
    {
        if s.len() == 0 || s.len() % 2 != 0 {
            return None;
        }
        let sl = s.len();
        let n = sl / 2;
        let mut syms: Vec<Symbol> = Vec::with_capacity(n);
        let mut j: usize = 0;
        while j < n
            invariant
                sl == s@.len(),
                n == s@.len() / 2,
                s@.len() % 2 == 0,
                j <= n,
                syms@.len() == j,
                forall|k: int| 0 <= k < j ==> (#[trigger] pair_symbol(s@[2 * k], s@[2 * k + 1])) == Some(syms@[k].0),
            decreases n - j,
        {
            match parse_pair(s[2 * j], s[2 * j + 1]) {
                Some(sym) => syms.push(sym),
                None => {
                    assert(!(forall|k: int| 0 <= k < s@.len() / 2 ==> (#[trigger] pair_symbol(s@[2 * k], s@[2 * k + 1])) is Some)) by {
                        assert(pair_symbol(s@[2 * (j as int)], s@[2 * (j as int) + 1]) is None);
                    }
                    return None;
                },
            }
            j = j + 1;
        }
        let p = Pattern(syms);
        assert(forall|k: int| 0 <= k < s@.len() / 2 ==> (#[trigger] pair_symbol(s@[2 * k], s@[2 * k + 1])) is Some);
        assert(p@ =~= pattern_of_text(s@).unwrap());
        Some(p)
    }
}

/// The set of patterns alive in one state, as a bit vector.
#[verifier::external_body]
pub struct AliveSet {
    bits: bitvec::vec::BitVec,
}

/// The bits of an alive set, one per pattern.
pub uninterp spec fn alive_bits(s: AliveSet) -> Seq<bool>;

/// Relies on bitvec's `BitVec::repeat`: `len` bits, all clear.
#[verifier::external_body]
fn alive_new(len: usize) -> (r: AliveSet)
    ensures
        alive_bits(r) == Seq::new(len as nat, |i: int| false),
{
    AliveSet { bits: bitvec::vec::BitVec::repeat(false, len) }
}

/// Relies on bitvec's `BitSlice::set`: writes one bit, which must be in bounds.
#[verifier::external_body]
fn alive_insert(s: &mut AliveSet, i: usize)
    requires
        i < alive_bits(*old(s)).len(),
    ensures
        alive_bits(*final(s)) == alive_bits(*old(s)).update(i as int, true),
{
    s.bits.set(i, true)
}

/// Relies on bitvec's indexing of a `BitSlice`: reads one bit, which must be in bounds.
#[verifier::external_body]
fn alive_contains(s: &AliveSet, i: usize) -> (r: bool)
    requires
        i < alive_bits(*s).len(),
    ensures
        r == alive_bits(*s)[i as int],
{
    s.bits[i]
}

/// The prefixes of the patterns `ps`, the empty one included.
pub open spec fn prefixes(ps: Seq<Seq<u16>>) -> Set<Seq<u16>> {
    Set::new(
        |q: Seq<u16>|
            q.len() == 0 || exists|i: int, k: int| 0 <= i < ps.len() && 0 <= k <= ps[i].len() && q == ps[i].take(k),
    )
}

/// The sum of the lengths of `ps`.
pub open spec fn total_length(ps: Seq<Seq<u16>>) -> nat
    decreases ps.len(),
{
    if ps.len() == 0 {
        0
    } else {
        total_length(ps.drop_last()) + ps.last().len()
    }
}

/// `path` is a prefix of `p` no longer than `limit`.
pub open spec fn prefix_within(path: Seq<u16>, p: Seq<u16>, limit: int) -> bool {
    path.len() <= limit && path.len() <= p.len() && path == p.subrange(0, path.len() as int)
}

/// Does `v` hold `i`?
fn index_listed(v: &Vec<usize>, i: usize) -> (r: bool)
    ensures
        r == v@.contains(i),
{
    let mut k: usize = 0;
    while k < v.len()
        invariant
            k <= v@.len(),
            forall|j: int| 0 <= j < k ==> v@[j] != i,
        decreases v@.len() - k,
    {
        if v[k] == i {
            return true;
        }
        k = k + 1;
    }
    false
}

/// Pushing `v` adds exactly `v` to what a sequence contains.
pub proof fn lemma_push_contains<A>(s: Seq<A>, v: A, x: A)
    ensures
        s.push(v).contains(x) <==> (s.contains(x) || x == v),
{
    if s.contains(x) {
        let z = choose|z: int| 0 <= z < s.len() && #[trigger] s[z] == x;
        assert(s.push(v)[z] == x);
    }
    if x == v {
        assert(s.push(v)[s.len() as int] == x);
    }
    if s.push(v).contains(x) && x != v {
        let z = choose|z: int| 0 <= z < s.len() + 1 && #[trigger] s.push(v)[z] == x;
        assert(s[z] == x);
    }
}

/// Append one row of absent transitions.
fn push_empty_row(v: &mut Vec<usize>)
    ensures
        final(v)@.len() == old(v)@.len() + NUM_SYMBOLS,
        forall|x: int| 0 <= x < old(v)@.len() ==> final(v)@[x] == old(v)@[x],
        forall|x: int| old(v)@.len() <= x < final(v)@.len() ==> final(v)@[x] == 0,
{
    let ghost v0 = v@;
    let mut j: usize = 0;
    while j < NUM_SYMBOLS
        invariant
            j <= NUM_SYMBOLS,
            v@.len() == v0.len() + j,
            forall|x: int| 0 <= x < v0.len() ==> v@[x] == v0[x],
            forall|x: int| v0.len() <= x < v@.len() ==> v@[x] == 0,
        decreases NUM_SYMBOLS - j,
    {
        v.push(0);
        j = j + 1;
    }
}

/// The matcher. State `0` is the root. The transition of state `s` on symbol `c` is
/// `trans[s * NUM_SYMBOLS + c]`, where `0` means none (the root is never a target).
pub struct NFA {
    trans: Vec<usize>,
    alive: Vec<AliveSet>,
    patterns: Vec<Pattern>,
    /// The symbols on the way from the root to each state.
    paths: Ghost<Seq<Seq<u16>>>,
    /// The state from which each state (but the root) is entered.
    parents: Ghost<Seq<int>>,
    /// For each pattern, the states along its path from the root.
    walks: Ghost<Seq<Seq<int>>>,
}

/// Collects patterns before the matcher is built.
pub struct NFABuilder {
    patterns: Vec<Pattern>,
}

impl NFA {
    /// The patterns, in the order they were added.
    pub closed spec fn patterns_view(&self) -> Seq<Seq<u16>> {
        Seq::new(self.patterns@.len(), |i: int| self.patterns@[i]@)
    }

    spec fn n(&self) -> int {
        self.alive@.len() as int
    }

    spec fn np(&self) -> int {
        self.patterns@.len() as int
    }

    spec fn tr(&self, s: int, c: int) -> int {
        self.trans@[s * 257 + c] as int
    }

    spec fn is_alive(&self, s: int, i: int) -> bool {
        alive_bits(self.alive@[s])[i]
    }

    spec fn pat(&self, i: int) -> Seq<u16> {
        self.patterns@[i]@
    }

    spec fn path(&self, s: int) -> Seq<u16> {
        self.paths@[s]
    }

    /// The states form a trie whose edges are labelled by symbols.
    spec fn trie_ok(&self) -> bool {
        &&& self.n() >= 1
        &&& self.paths@.len() == self.n()
        &&& self.parents@.len() == self.n()
        &&& self.trans@.len() == self.n() * 257
        &&& self.n() * 257 <= usize::MAX
        &&& self.path(0) == Seq::<u16>::empty()
        &&& forall|s: int|
            0 <= s < self.n() ==> alive_bits(#[trigger] self.alive@[s]).len() == self.np()
        &&& forall|s: int, c: int|
            0 <= s < self.n() && 0 <= c < 257 && #[trigger] self.tr(s, c) != 0 ==> 0 < self.tr(s, c)
                < self.n() && self.path(self.tr(s, c)) == self.path(s).push(c as u16)
        &&& forall|s: int|
            0 < s < self.n() ==> {
                &&& 0 <= #[trigger] self.parents@[s] < self.n()
                &&& self.path(s).len() > 0
                &&& self.path(self.parents@[s]) == self.path(s).drop_last()
                &&& self.path(s).last() < 257
                &&& self.tr(self.parents@[s], self.path(s).last() as int) == s
            }
        &&& forall|s1: int, s2: int|
            #![trigger self.paths@[s1], self.paths@[s2]]
            0 <= s1 < self.n() && 0 <= s2 < self.n() && self.paths@[s1] == self.paths@[s2] ==> s1
                == s2
    }

    spec fn patterns_ok(&self) -> bool {
        forall|i: int| 0 <= i < self.np() ==> symbols_valid(#[trigger] self.pat(i))
    }

    /// Pattern `i` has been entered up to length `ins[i]` (`-1`: not at all).
    spec fn alive_ok(&self, ins: Seq<int>) -> bool {
        &&& ins.len() == self.np()
        &&& self.walks@.len() == self.np()
        &&& forall|i: int| 0 <= i < self.np() ==> -1 <= #[trigger] ins[i] <= self.pat(i).len()
        &&& forall|s: int, i: int|
            0 <= s < self.n() && 0 <= i < self.np() ==> (#[trigger] self.is_alive(s, i)
                <==> prefix_within(self.path(s), self.pat(i), ins[i]))
        &&& forall|i: int| 0 <= i < self.np() ==> (#[trigger] self.walks@[i]).len() > ins[i]
        &&& forall|i: int, k: int|
            0 <= i < self.np() && 0 <= k <= ins[i] ==> {
                &&& 0 <= #[trigger] self.walks@[i][k] < self.n()
                &&& self.path(self.walks@[i][k]) == self.pat(i).subrange(0, k)
            }
    }

    spec fn full(&self) -> Seq<int> {
        Seq::new(self.patterns@.len(), |i: int| self.pat(i).len() as int)
    }

    /// No state has the path one step past `from` on symbol `c` when that transition is
    /// absent.
    proof fn lemma_fresh_path(&self, from: int, c: int, s: int)
        requires
            self.trie_ok(),
            0 <= from < self.n(),
            0 <= c < 257,
            self.tr(from, c) == 0,
            0 <= s < self.n(),
        ensures
            self.path(s) != self.path(from).push(c as u16),
    {
        if self.path(s) == self.path(from).push(c as u16) {
            assert(s != 0) by {
                assert(self.path(0).len() == 0);
            }
            let p = self.parents@[s];
            assert(self.path(p) =~= self.path(from));
            assert(self.paths@[p] == self.paths@[from]);
            assert(p == from);
            assert(self.path(s).last() == c as u16);
        }
    }

    /// Changing only the alive sets, and not their lengths, keeps the trie well formed.
    proof fn lemma_same_shape(a: NFA, b: NFA)
        requires
            a.trie_ok(),
            a.patterns_ok(),
            a.trans == b.trans,
            a.paths == b.paths,
            a.parents == b.parents,
            a.patterns == b.patterns,
            a.alive@.len() == b.alive@.len(),
            forall|s: int|
                0 <= s < a.n() ==> alive_bits(#[trigger] b.alive@[s]).len() == alive_bits(
                    a.alive@[s],
                ).len(),
        ensures
            b.trie_ok(),
            b.patterns_ok(),
    {
        assert forall|i: int| 0 <= i < b.np() implies symbols_valid(#[trigger] b.pat(i)) by {
            assert(b.pat(i) == a.pat(i));
        }
        assert forall|s: int, c: int| 0 <= s < b.n() && 0 <= c < 257 implies #[trigger] b.tr(s, c)
            == a.tr(s, c) by {}
        assert forall|s: int| 0 <= s < b.n() implies alive_bits(#[trigger] b.alive@[s]).len()
            == b.np() by {
            assert(alive_bits(a.alive@[s]).len() == a.np());
        }
    }

    /// Add a state entered from `from` on symbol `c`, with no transitions and no pattern
    /// alive.
    fn add_state(&mut self, from: usize, c: usize, Ghost(ins): Ghost<Seq<int>>) -> (t: usize)
        requires
            old(self).trie_ok(),
            old(self).patterns_ok(),
            old(self).alive_ok(ins),
            old(self).covered(ins, old(self).n() as int),
            from < old(self).n(),
            c < 257,
            old(self).tr(from as int, c as int) == 0,
        ensures
            final(self).trie_ok(),
            final(self).patterns_ok(),
            final(self).alive_ok(ins),
            final(self).covered(ins, old(self).n() as int),
            t == old(self).n(),
            final(self).n() == old(self).n() + 1,
            final(self).path(t as int) == old(self).path(from as int).push(c as u16),
            final(self).patterns == old(self).patterns,
            final(self).walks == old(self).walks,
            forall|s: int| 0 <= s < old(self).n() ==> final(self).path(s) == old(self).path(s),
            forall|s: int| 0 <= s < old(self).n() ==> final(self).alive@[s] == old(self).alive@[s],
            forall|s: int, d: int|
                0 <= s < old(self).n() && 0 <= d < 257 && (s, d) != (from as int, c as int)
                    ==> final(self).tr(s, d) == old(self).tr(s, d),
            final(self).tr(from as int, c as int) == t,
    {
        let ghost o: NFA = *self;
        let t = self.alive.len();
        let np = self.patterns.len();
        self.alive.push(alive_new(np));
        assert(self.alive@.len() == o.alive@.len() + 1);
        assert(self.n() == o.n() + 1);
        let ghost trans0 = self.trans@;
        push_empty_row(&mut self.trans);
        let tl = self.trans.len();
        assert(from * 257 + c < tl) by (nonlinear_arith)
            requires
                from < t,
                c < 257,
                tl == t * 257 + 257,
        ;
        self.trans.set(from * NUM_SYMBOLS + c, t);
        let ghost newpath = old(self).path(from as int).push(c as u16);
        self.paths = Ghost(self.paths@.push(newpath));
        self.parents = Ghost(self.parents@.push(from as int));
        proof {
            assert(self.patterns == o.patterns);
            assert forall|i: int| 0 <= i < self.np() implies symbols_valid(#[trigger] self.pat(i)) by {
                assert(self.pat(i) == o.pat(i));
            }
            assert(self.n() == o.n() + 1);
            assert(t == o.n());
            assert forall|s: int| 0 <= s < o.n() implies self.paths@[s] != newpath by {
                o.lemma_fresh_path(from as int, c as int, s);
                assert(self.paths@[s] == o.paths@[s]);
            }
            assert forall|s: int, d: int|
                0 <= s < self.n() && 0 <= d < 257 && #[trigger] self.tr(s, d) != 0 implies 0
                    < self.tr(s, d) < self.n() && self.path(self.tr(s, d)) == self.path(s).push(
                    d as u16,
                ) by {
                if s == t {
                    assert(s * 257 + d >= trans0.len()) by (nonlinear_arith)
                        requires
                            s == o.n(),
                            trans0.len() == o.n() * 257,
                            d >= 0,
                    ;
                } else {
                    assert(s * 257 + d < trans0.len()) by (nonlinear_arith)
                        requires
                            s < o.n(),
                            trans0.len() == o.n() * 257,
                            d < 257,
                    ;
                    if (s, d) != (from as int, c as int) {
                        assert(s * 257 + d != from * 257 + c) by (nonlinear_arith)
                            requires
                                (s, d) != (from as int, c as int),
                                0 <= d < 257,
                                0 <= c < 257,
                        ;
                        assert(o.tr(s, d) == self.tr(s, d));
                    }
                }
            }
            assert forall|s: int| 0 < s < self.n() implies {
                &&& 0 <= #[trigger] self.parents@[s] < self.n()
                &&& self.path(s).len() > 0
                &&& self.path(self.parents@[s]) == self.path(s).drop_last()
                &&& self.path(s).last() < 257
                &&& self.tr(self.parents@[s], self.path(s).last() as int) == s
            } by {
                if s == t {
                    assert(newpath.drop_last() =~= o.path(from as int));
                } else {
                    let p = o.parents@[s];
                    let d = o.path(s).last() as int;
                    if (p, d) != (from as int, c as int) {
                        assert(p * 257 + d != from * 257 + c) by (nonlinear_arith)
                            requires
                                (p, d) != (from as int, c as int),
                                0 <= d < 257,
                                0 <= c < 257,
                        ;
                        assert(p * 257 + d < trans0.len()) by (nonlinear_arith)
                            requires
                                p < o.n(),
                                trans0.len() == o.n() * 257,
                                d < 257,
                        ;
                    } else {
                        assert(o.tr(p, d) == s);
                    }
                }
            }
            assert forall|s1: int, s2: int|
                #![trigger self.paths@[s1], self.paths@[s2]]
                0 <= s1 < self.n() && 0 <= s2 < self.n() && self.paths@[s1] == self.paths@[s2]
                    implies s1 == s2 by {
                if s1 != t && s2 != t {
                    assert(o.paths@[s1] == o.paths@[s2]);
                }
            }
            assert forall|s: int, d: int|
                0 <= s < o.n() && 0 <= d < 257 && (s, d) != (from as int, c as int) implies self.tr(
                s,
                d,
            ) == o.tr(s, d) by {
                assert(s * 257 + d != from * 257 + c) by (nonlinear_arith)
                    requires
                        (s, d) != (from as int, c as int),
                        0 <= d < 257,
                        0 <= c < 257,
                ;
                assert(s * 257 + d < trans0.len()) by (nonlinear_arith)
                    requires
                        s < o.n(),
                        trans0.len() == o.n() * 257,
                        d < 257,
                ;
            }
            assert forall|s: int, i: int|
                0 <= s < self.n() && 0 <= i < self.np() implies (#[trigger] self.is_alive(s, i)
                <==> prefix_within(self.path(s), self.pat(i), ins[i])) by {
                if s == t {
                    if prefix_within(newpath, self.pat(i), ins[i]) {
                        let w = o.walks@[i][newpath.len() as int];
                        assert(o.path(w) =~= newpath);
                        o.lemma_fresh_path(from as int, c as int, w);
                    }
                } else {
                    assert(o.is_alive(s, i) == self.is_alive(s, i));
                }
            }
            assert forall|s: int| 0 <= s < self.n() implies alive_bits(
                #[trigger] self.alive@[s],
            ).len() == self.np() by {
                if s < o.n() {
                    assert(self.alive@[s] == o.alive@[s]);
                }
            }
        }
        proof {
            assert forall|s: int| 0 < s < o.n() implies self.spells_prefix(#[trigger] self.paths@[s], ins) by {
                assert(o.spells_prefix(o.paths@[s], ins));
                let i = choose|i: int| 0 <= i < o.np() && prefix_within(o.paths@[s], #[trigger] o.pat(i), ins[i]);
                assert(self.paths@[s] == o.paths@[s]);
                assert(self.pat(i) == o.pat(i));
            }
        }
        t
    }

    /// Enter pattern `i` into the trie and mark it alive along its path.
    fn insert_pattern(&mut self, i: usize, Ghost(ins): Ghost<Seq<int>>)
        requires
            old(self).trie_ok(),
            old(self).patterns_ok(),
            old(self).alive_ok(ins),
            old(self).covered(ins, old(self).n() as int),
            i < old(self).np(),
            ins[i as int] == -1,
        ensures
            final(self).trie_ok(),
            final(self).patterns_ok(),
            final(self).alive_ok(ins.update(i as int, old(self).pat(i as int).len() as int)),
            final(self).covered(ins.update(i as int, old(self).pat(i as int).len() as int), final(self).n() as int),
            final(self).patterns == old(self).patterns,
            final(self).n() <= old(self).n() + old(self).pat(i as int).len(),
    {
        let ghost o: NFA = *self;
        let ghost pi = self.pat(i as int);
        let ghost ins0 = ins.update(i as int, 0);
        assert(pi.subrange(0, 0) =~= Seq::<u16>::empty());
        alive_insert(&mut self.alive[0], i);
        self.walks = Ghost(self.walks@.update(i as int, seq![0int]));
        proof {
            assert forall|s: int| 0 < s < self.n() implies self.spells_prefix(#[trigger] self.paths@[s], ins0) by {
                assert(o.spells_prefix(o.paths@[s], ins));
                let j = choose|j: int| 0 <= j < o.np() && prefix_within(o.paths@[s], #[trigger] o.pat(j), ins[j]);
                assert(self.pat(j) == o.pat(j));
                assert(ins[j] <= ins0[j]);
            }
            assert(alive_bits(self.alive@[0]) == alive_bits(o.alive@[0]).update(i as int, true));
            assert(self.n() == o.n());
            assert forall|s: int, j: int|
                0 <= s < self.n() && 0 <= j < self.np() implies (#[trigger] self.is_alive(s, j)
                <==> prefix_within(self.path(s), self.pat(j), ins0[j])) by {
                assert(self.path(s) == o.path(s));
                assert(self.pat(j) == o.pat(j));
                assert(o.is_alive(s, j) <==> prefix_within(o.path(s), o.pat(j), ins[j]));
                if s == 0 {
                    if j == i {
                        assert(self.path(0) =~= pi.subrange(0, 0));
                    } else {
                        assert(self.is_alive(s, j) == o.is_alive(s, j));
                    }
                } else {
                    assert(self.alive@[s] == o.alive@[s]);
                    assert(self.is_alive(s, j) == o.is_alive(s, j));
                    if j == i && prefix_within(self.path(s), self.pat(j), ins0[j]) {
                        assert(self.paths@[s] =~= self.paths@[0]);
                    }
                }
            }
            assert forall|s: int| 0 <= s < self.n() implies alive_bits(
                #[trigger] self.alive@[s],
            ).len() == alive_bits(o.alive@[s]).len() by {
                if s != 0 {
                    assert(self.alive@[s] == o.alive@[s]);
                }
            }
            NFA::lemma_same_shape(o, *self);
            assert forall|j: int, kk: int|
                0 <= j < self.np() && 0 <= kk <= ins0[j] implies {
                &&& 0 <= #[trigger] self.walks@[j][kk] < self.n()
                &&& self.path(self.walks@[j][kk]) == self.pat(j).subrange(0, kk)
            } by {
                if j != i {
                    assert(self.walks@[j] == o.walks@[j]);
                    assert(o.walks@[j][kk] == self.walks@[j][kk]);
                }
            }
        }
        let plen = self.patterns[i].0.len();
        let mut cur: usize = 0;
        let mut k: usize = 0;
        while k < plen
            invariant
                self.trie_ok(),
                self.patterns_ok(),
                self.alive_ok(ins.update(i as int, k as int)),
                self.covered(ins.update(i as int, k as int), self.n() as int),
                self.patterns == old(self).patterns,
                i < self.np(),
                ins.len() == self.np(),
                pi == self.pat(i as int),
                plen == pi.len(),
                k <= plen,
                cur < self.n(),
                self.path(cur as int) == pi.subrange(0, k as int),
                self.walks@[i as int].len() == k + 1,
                self.n() <= old(self).n() + k,
            decreases plen - k,
        {
            let ghost insk = ins.update(i as int, k as int);
            let ghost ins1 = ins.update(i as int, k + 1);
            let c = self.patterns[i].0[k].0 as usize;
            assert(c == pi[k as int]);
            assert(c < 257) by {
                assert(symbols_valid(self.pat(i as int)));
            }
            let tl = self.trans.len();
            assert(cur * 257 + c < tl) by (nonlinear_arith)
                requires
                    cur < self.n(),
                    c < 257,
                    tl == self.n() * 257,
            ;
            let t = self.trans[cur * NUM_SYMBOLS + c];
            assert(self.tr(cur as int, c as int) == t);
            assert(pi.subrange(0, k as int).push(c as u16) =~= pi.subrange(0, k + 1));
            let ghost pre = *self;
            let next = if t == 0 {
                self.add_state(cur, c, Ghost(insk))
            } else {
                t
            };
            assert(self.path(next as int) =~= pi.subrange(0, k + 1));
            let ghost mid = *self;
            alive_insert(&mut self.alive[next], i);
            self.walks = Ghost(self.walks@.update(i as int, self.walks@[i as int].push(next as int)));
            proof {
                assert(alive_bits(self.alive@[next as int]) == alive_bits(mid.alive@[next as int]).update(i as int, true));
                assert(self.n() == mid.n());
                assert(mid.alive_ok(insk));
                assert forall|s: int, j: int|
                    0 <= s < self.n() && 0 <= j < self.np() implies (#[trigger] self.is_alive(s, j)
                    <==> prefix_within(self.path(s), self.pat(j), ins1[j])) by {
                    assert(self.path(s) == mid.path(s));
                    assert(self.pat(j) == mid.pat(j));
                    assert(mid.is_alive(s, j) <==> prefix_within(mid.path(s), mid.pat(j), insk[j]));
                    if s == next {
                        if j != i {
                            assert(self.is_alive(s, j) == mid.is_alive(s, j));
                            assert(ins1[j] == insk[j]);
                        } else {
                            assert(self.is_alive(s, j));
                            assert(self.path(s) == pi.subrange(0, k + 1));
                            assert(self.pat(j) == pi);
                            assert(ins1[j] == k + 1);
                            assert(prefix_within(self.path(s), self.pat(j), ins1[j]));
                        }
                    } else {
                        assert(self.alive@[s] == mid.alive@[s]);
                        assert(self.is_alive(s, j) == mid.is_alive(s, j));
                        if j == i && prefix_within(self.path(s), self.pat(j), ins1[j]) && self.path(
                            s,
                        ).len() == k + 1 {
                            assert(mid.paths@[s] =~= mid.paths@[next as int]);
                        }
                    }
                }
                assert forall|s: int| 0 <= s < self.n() implies alive_bits(
                    #[trigger] self.alive@[s],
                ).len() == alive_bits(mid.alive@[s]).len() by {
                    if s != next {
                        assert(self.alive@[s] == mid.alive@[s]);
                    }
                }
                NFA::lemma_same_shape(mid, *self);
                assert(self.walks@.len() == self.np());
                assert forall|j: int| 0 <= j < self.np() implies -1 <= #[trigger] ins1[j] <= self.pat(
                    j,
                ).len() by {
                    if j != i {
                        assert(ins1[j] == insk[j]);
                        assert(self.pat(j) == mid.pat(j));
                    }
                }
                assert forall|j: int| 0 <= j < self.np() implies (#[trigger] self.walks@[j]).len()
                    > ins1[j] by {
                    if j != i {
                        assert(ins1[j] == insk[j]);
                        assert(self.walks@[j] == mid.walks@[j]);
                    }
                }
                assert forall|j: int, kk: int|
                    0 <= j < self.np() && 0 <= kk <= ins1[j] implies {
                    &&& 0 <= #[trigger] self.walks@[j][kk] < self.n()
                    &&& self.path(self.walks@[j][kk]) == self.pat(j).subrange(0, kk)
                } by {
                    if j == i && kk <= k {
                        assert(self.walks@[j][kk] == mid.walks@[j][kk]);
                    } else if j != i {
                        assert(self.walks@[j] == mid.walks@[j]);
                        assert(self.walks@[j][kk] == mid.walks@[j][kk]);
                    }
                }
            }
            proof {
                assert forall|s: int| 0 < s < self.n() implies self.spells_prefix(#[trigger] self.paths@[s], ins1) by {
                    if s < pre.n() {
                        assert(mid.spells_prefix(mid.paths@[s], insk));
                        let j = choose|j: int| 0 <= j < mid.np() && prefix_within(mid.paths@[s], #[trigger] mid.pat(j), insk[j]);
                        assert(self.pat(j) == mid.pat(j));
                        assert(self.paths@[s] == mid.paths@[s]);
                        assert(insk[j] <= ins1[j]);
                    } else {
                        assert(s == next);
                        assert(self.pat(i as int) == pi);
                        assert(self.paths@[s] == pi.subrange(0, k + 1));
                        assert(prefix_within(self.paths@[s], self.pat(i as int), ins1[i as int]));
                    }
                }
            }
            cur = next;
            k = k + 1;
        }
        assert(ins.update(i as int, k as int) == ins.update(i as int, old(self).pat(i as int).len() as int));
    }

    /// The states of `cur` are exactly those at depth `k` whose path matches `buf`.
    spec fn frontier(&self, cur: Seq<usize>, k: int, buf: Seq<u8>) -> bool {
        &&& forall|x: int|
            0 <= x < cur.len() ==> {
                &&& (#[trigger] cur[x]) < self.n()
                &&& self.path(cur[x] as int).len() == k
                &&& pattern_matches(self.path(cur[x] as int), buf)
            }
        &&& forall|s: int|
            0 <= s < self.n() && (#[trigger] self.path(s)).len() == k && pattern_matches(
                self.path(s),
                buf,
            ) ==> cur.contains(s as usize)
    }

    /// Add to `found` every pattern of length `k` that ends in a state of `cur`.
    fn report(&self, cur: &Vec<usize>, k: usize, Ghost(buf): Ghost<Seq<u8>>, found: &mut Vec<usize>)
        requires
            self.wf(),
            self.frontier(cur@, k as int, buf),
            forall|x: int| 0 <= x < old(found)@.len() ==> (#[trigger] old(found)@[x]) < self.np(),
            forall|a: int, b: int| 0 <= a < b < old(found)@.len() ==> old(found)@[a] != old(found)@[b],
            forall|i: int|
                #![trigger old(found)@.contains(i as usize)]
                0 <= i < self.np() ==> (old(found)@.contains(i as usize) <==> (self.pat(
                    i,
                ).len() < k && pattern_matches(self.pat(i), buf))),
        ensures
            forall|x: int| 0 <= x < final(found)@.len() ==> (#[trigger] final(found)@[x]) < self.np(),
            forall|a: int, b: int| 0 <= a < b < final(found)@.len() ==> final(found)@[a] != final(found)@[b],
            forall|i: int|
                #![trigger final(found)@.contains(i as usize)]
                0 <= i < self.np() ==> (final(found)@.contains(i as usize) <==> (self.pat(
                    i,
                ).len() <= k && pattern_matches(self.pat(i), buf))),
    {
        let np = self.patterns.len();
        let mut x: usize = 0;
        while x < cur.len()
            invariant
                self.wf(),
                np == self.np(),
                x <= cur@.len(),
                self.frontier(cur@, k as int, buf),
                forall|y: int| 0 <= y < found@.len() ==> (#[trigger] found@[y]) < self.np(),
                forall|a: int, b: int| 0 <= a < b < found@.len() ==> found@[a] != found@[b],
                forall|i: int|
                    #![trigger found@.contains(i as usize)]
                    0 <= i < self.np() ==> (found@.contains(i as usize) <==> ((self.pat(
                        i,
                    ).len() < k && pattern_matches(self.pat(i), buf)) || (self.pat(i).len() == k
                        && cur@.subrange(0, x as int).contains(
                        self.walks@[i][k as int] as usize,
                    )))),
            decreases cur@.len() - x,
        {
            let s = cur[x];
            let ghost found0 = found@;
            let mut i: usize = 0;
            while i < np
                invariant
                    self.wf(),
                    np == self.np(),
                    x < cur@.len(),
                    s == cur@[x as int],
                    s < self.n(),
                    self.path(s as int).len() == k,
                    i <= np,
                    forall|y: int| 0 <= y < found@.len() ==> (#[trigger] found@[y]) < self.np(),
                    forall|a: int, b: int| 0 <= a < b < found@.len() ==> found@[a] != found@[b],
                forall|a: int, b: int| 0 <= a < b < found@.len() ==> found@[a] != found@[b],
                    forall|j: int|
                        #![trigger found@.contains(j as usize)]
                        #![trigger found0.contains(j as usize)]
                        0 <= j < self.np() ==> (found@.contains(j as usize) <==> (found0.contains(
                            j as usize,
                        ) || (j < i && self.pat(j).len() == k && self.walks@[j][k as int]
                            == s))),
                decreases np - i,
            {
                let ghost prev = found@;
                let plen = self.patterns[i].0.len();
                let ghost hit = plen == k && self.walks@[i as int][k as int] == s;
                let is_hit = plen == k && alive_contains(&self.alive[s], i);
                proof {
                    if plen == k {
                        let w = self.walks@[i as int][k as int];
                        assert(self.path(w) =~= self.pat(i as int));
                        assert(self.is_alive(s as int, i as int) <==> prefix_within(
                            self.path(s as int),
                            self.pat(i as int),
                            self.pat(i as int).len() as int,
                        ));
                        if self.is_alive(s as int, i as int) {
                            assert(self.path(s as int) =~= self.pat(i as int));
                            assert(self.paths@[w] == self.paths@[s as int]);
                        }
                        if w == s {
                            assert(self.path(s as int) =~= self.pat(i as int).subrange(0, k as int));
                        }
                    }
                    assert(is_hit == hit);
                }
                let listed = index_listed(found, i);
                if is_hit && !listed {
                    found.push(i);
                }
                proof {
                    assert forall|j: int|
                        #![trigger found@.contains(j as usize)]
                        #![trigger found0.contains(j as usize)]
                        0 <= j < self.np() implies (found@.contains(j as usize) <==> (
                    found0.contains(j as usize) || (j < i + 1 && self.pat(j).len() == k
                        && self.walks@[j][k as int] == s))) by {
                        assert(prev.contains(j as usize) <==> (found0.contains(j as usize) || (j < i
                            && self.pat(j).len() == k && self.walks@[j][k as int] == s)));
                        if is_hit && !listed {
                            lemma_push_contains(prev, i, j as usize);
                        } else {
                            assert(found@ == prev);
                        }
                        if j == i {
                            assert(hit == (self.pat(j).len() == k && self.walks@[j][k as int] == s));
                        }
                    }
                }
                i = i + 1;
            }
            proof {
                assert(cur@.subrange(0, x + 1) =~= cur@.subrange(0, x as int).push(s));
                assert forall|j: int|
                    #![trigger found@.contains(j as usize)]
                    0 <= j < self.np() implies (found@.contains(j as usize) <==> ((self.pat(
                        j,
                    ).len() < k && pattern_matches(self.pat(j), buf)) || (self.pat(j).len() == k
                        && cur@.subrange(0, x + 1).contains(self.walks@[j][k as int] as usize))))
                    by {
                    assert(found0.contains(j as usize) <==> ((self.pat(j).len() < k
                        && pattern_matches(self.pat(j), buf)) || (self.pat(j).len() == k
                        && cur@.subrange(0, x as int).contains(self.walks@[j][k as int] as usize))));
                    assert(found@.contains(j as usize) <==> (found0.contains(j as usize) || (
                    self.pat(j).len() == k && self.walks@[j][k as int] == s)));
                    lemma_push_contains(
                        cur@.subrange(0, x as int),
                        s,
                        self.walks@[j][k as int] as usize,
                    );
                    if self.pat(j).len() == k {
                        assert(0 <= self.walks@[j][k as int] < self.n());
                        assert((self.walks@[j][k as int] as usize == s) == (self.walks@[j][k as int] == s));
                    }
                }
            }
            x = x + 1;
        }
        proof {
            assert(cur@.subrange(0, cur@.len() as int) =~= cur@);
            assert forall|i: int|
                #![trigger found@.contains(i as usize)]
                0 <= i < self.np() implies (found@.contains(i as usize) <==> (self.pat(
                    i,
                ).len() <= k && pattern_matches(self.pat(i), buf))) by {
                if self.pat(i).len() == k {
                    let w = self.walks@[i][k as int];
                    assert(self.path(w) =~= self.pat(i));
                    assert(0 <= w < self.n());
                    if cur@.contains(w as usize) {
                        let z = choose|z: int| 0 <= z < cur@.len() && #[trigger] cur@[z] == w as usize;
                        assert(pattern_matches(self.path(cur@[z] as int), buf));
                    }
                }
            }
        }
    }

    /// The states one symbol deeper than `cur` whose path matches `buf`, where `b` is
    /// the byte at depth `k`.
    fn step(&self, cur: &Vec<usize>, b: u8, Ghost(k): Ghost<int>, Ghost(buf): Ghost<Seq<u8>>) -> (next: Vec<usize>)
        requires
            self.wf(),
            self.frontier(cur@, k, buf),
            0 <= k < buf.len(),
            b == buf[k],
        ensures
            self.frontier(next@, k + 1, buf),
    {
        let mut next: Vec<usize> = Vec::new();
        let mut x: usize = 0;
        let tl = self.trans.len();
        while x < cur.len()
            invariant
                self.wf(),
                self.frontier(cur@, k, buf),
                0 <= k < buf.len(),
                b == buf[k],
                tl == self.trans@.len(),
                x <= cur@.len(),
                forall|y: int|
                    0 <= y < next@.len() ==> {
                        &&& (#[trigger] next@[y]) < self.n()
                        &&& self.path(next@[y] as int).len() == k + 1
                        &&& pattern_matches(self.path(next@[y] as int), buf)
                    },
                forall|y: int, c: int|
                    0 <= y < x && (c == b || c == WILDCARD) && #[trigger] self.tr(cur@[y] as int, c)
                        != 0 ==> next@.contains(self.tr(cur@[y] as int, c) as usize),
            decreases cur@.len() - x,
        {
            let s = cur[x];
            assert(s * 257 + 256 < tl) by (nonlinear_arith)
                requires
                    s < self.n(),
                    tl == self.n() * 257,
            ;
            let ghost next0 = next@;
            let t1 = self.trans[s * NUM_SYMBOLS + b as usize];
            assert(t1 == self.tr(s as int, b as int));
            if t1 != 0 {
                proof {
                    let q = self.path(t1 as int);
                    assert(q == self.path(s as int).push(b as u16));
                    assert forall|j: int| 0 <= j < q.len() implies symbol_accepts(#[trigger] q[j], buf[j]) by {
                        if j < k {
                            assert(q[j] == self.path(s as int)[j]);
                        }
                    }
                }
                next.push(t1);
            }
            let t2 = self.trans[s * NUM_SYMBOLS + WILDCARD as usize];
            assert(t2 == self.tr(s as int, WILDCARD as int));
            let ghost next1 = next@;
            if t2 != 0 {
                proof {
                    let q = self.path(t2 as int);
                    assert(q == self.path(s as int).push(WILDCARD));
                    assert forall|j: int| 0 <= j < q.len() implies symbol_accepts(#[trigger] q[j], buf[j]) by {
                        if j < k {
                            assert(q[j] == self.path(s as int)[j]);
                        }
                    }
                }
                next.push(t2);
            }
            proof {
                assert forall|y: int, c: int|
                    0 <= y < x + 1 && (c == b || c == WILDCARD) && #[trigger] self.tr(cur@[y] as int, c)
                        != 0 implies next@.contains(self.tr(cur@[y] as int, c) as usize) by {
                    if y < x {
                        let z = choose|z: int| 0 <= z < next0.len() && #[trigger] next0[z] == self.tr(cur@[y] as int, c) as usize;
                        assert(next@[z] == next0[z]);
                    } else if c == b {
                        assert(next1[next0.len() as int] == t1);
                        assert(next@[next0.len() as int] == t1);
                    } else {
                        assert(next@[next1.len() as int] == t2);
                    }
                }
            }
            x = x + 1;
        }
        proof {
            assert forall|s: int|
                0 <= s < self.n() && (#[trigger] self.path(s)).len() == k + 1 && pattern_matches(
                    self.path(s),
                    buf,
                ) implies next@.contains(s as usize) by {
                assert(s != 0) by {
                    assert(self.path(0).len() == 0);
                }
                let p = self.parents@[s];
                let c = self.path(s).last() as int;
                let pp = self.path(p);
                assert(pp == self.path(s).drop_last());
                assert forall|j: int| 0 <= j < pp.len() implies symbol_accepts(#[trigger] pp[j], buf[j]) by {
                    assert(pp[j] == self.path(s)[j]);
                }
                assert(pattern_matches(pp, buf));
                assert(cur@.contains(p as usize));
                let y = choose|y: int| 0 <= y < cur@.len() && #[trigger] cur@[y] == p as usize;
                assert(symbol_accepts(self.path(s)[k], buf[k]));
                assert(self.tr(cur@[y] as int, c) == s);
            }
        }
        next
    }

    /// Indices of the patterns that match the start of `buf`: every symbol accepts the
    /// byte at its position, and `buf` is at least as long as the pattern.
    pub fn find_matches(&self, buf: &[u8]) -> (r: Vec<usize>)
        requires
            self.wf(),
        ensures
            forall|x: int| 0 <= x < r@.len() ==> (#[trigger] r@[x]) < self.patterns_view().len(),
            forall|a: int, b: int| 0 <= a < b < r@.len() ==> r@[a] != r@[b],
            forall|i: int|
                0 <= i < self.patterns_view().len() ==> (r@.contains(i as usize) <==> pattern_matches(
                    #[trigger] self.patterns_view()[i],
                    buf@,
                )),
    {
        let mut cur: Vec<usize> = Vec::new();
        cur.push(0);
        proof {
            assert forall|s: int|
                0 <= s < self.n() && (#[trigger] self.path(s)).len() == 0 && pattern_matches(
                    self.path(s),
                    buf@,
                ) implies cur@.contains(s as usize) by {
                assert(self.paths@[s] =~= self.paths@[0]);
                assert(cur@[0] == 0);
            }
            assert(pattern_matches(self.path(0), buf@));
        }
        let mut found: Vec<usize> = Vec::new();
        let mut k: usize = 0;
        while k < buf.len()
            invariant
                self.wf(),
                k <= buf@.len(),
                self.frontier(cur@, k as int, buf@),
                forall|x: int| 0 <= x < found@.len() ==> (#[trigger] found@[x]) < self.np(),
                forall|a: int, b: int| 0 <= a < b < found@.len() ==> found@[a] != found@[b],
                forall|i: int|
                    #![trigger found@.contains(i as usize)]
                    0 <= i < self.np() ==> (found@.contains(i as usize) <==> (self.pat(
                        i,
                    ).len() < k && pattern_matches(self.pat(i), buf@))),
            decreases buf@.len() - k,
        {
            self.report(&cur, k, Ghost(buf@), &mut found);
            cur = self.step(&cur, buf[k], Ghost(k as int), Ghost(buf@));
            k = k + 1;
        }
        self.report(&cur, k, Ghost(buf@), &mut found);
        proof {
            assert forall|i: int|
                0 <= i < self.patterns_view().len() implies (found@.contains(i as usize) <==> pattern_matches(
                    #[trigger] self.patterns_view()[i],
                    buf@,
                )) by {
                assert(self.patterns_view()[i] == self.pat(i));
            }
        }
        found
    }

    /// Number of states: at most one more than the patterns' total length, since each
    /// state but the root stands for a distinct non-empty prefix of some pattern.
    pub closed spec fn num_states(&self) -> nat {
        self.alive@.len()
    }

    /// Every state below `bound` but the root spells a prefix, entered so far, of some
    /// pattern.
    spec fn covered(&self, ins: Seq<int>, bound: int) -> bool {
        forall|s: int| 0 < s < bound ==> self.spells_prefix(#[trigger] self.paths@[s], ins)
    }

    /// `p` is a prefix, entered so far, of some pattern.
    spec fn spells_prefix(&self, p: Seq<u16>, ins: Seq<int>) -> bool {
        exists|i: int| 0 <= i < self.np() && prefix_within(p, #[trigger] self.pat(i), ins[i])
    }

    proof fn lemma_covered_mono(&self, ins: Seq<int>, ins2: Seq<int>, bound: int)
        requires
            self.covered(ins, bound),
            ins.len() == ins2.len(),
            ins.len() == self.np(),
            forall|j: int| 0 <= j < ins.len() ==> ins[j] <= ins2[j],
        ensures
            self.covered(ins2, bound),
    {
        assert forall|s: int| 0 < s < bound implies self.spells_prefix(#[trigger] self.paths@[s], ins2) by {
            assert(self.spells_prefix(self.paths@[s], ins));
            let i = choose|i: int| 0 <= i < self.np() && prefix_within(self.paths@[s], #[trigger] self.pat(i), ins[i]);
            assert(ins[i] <= ins2[i]);
        }
    }

    /// Number of states.
    pub fn state_count(&self) -> (r: usize)
        ensures
            r == self.num_states(),
    {
        self.alive.len()
    }

    /// The symbols on the way from the root to state `s`.
    pub closed spec fn state_path(&self, s: int) -> Seq<u16> {
        self.paths@[s]
    }

    /// The state entered from `s` on symbol `c`, or `0` for none.
    pub closed spec fn next_state(&self, s: int, c: int) -> int {
        self.tr(s, c)
    }

    /// The shape of the matcher: a trie whose states are exactly the distinct prefixes
    /// of the patterns (the root being the empty one), each entered from the state of its
    /// prefix one symbol shorter; so patterns that share a prefix share its states.
    pub proof fn lemma_trie_shape(&self)
        requires
            self.wf(),
        ensures
            self.num_states() >= 1,
            self.state_path(0) == Seq::<u16>::empty(),
            forall|s1: int, s2: int|
                0 <= s1 < self.num_states() && 0 <= s2 < self.num_states() && #[trigger] self.state_path(s1)
                    == #[trigger] self.state_path(s2) ==> s1 == s2,
            forall|s: int| 0 <= s < self.num_states() ==> prefixes(self.patterns_view()).contains(#[trigger] self.state_path(s)),
            forall|q: Seq<u16>|
                #[trigger] prefixes(self.patterns_view()).contains(q) ==> exists|s: int|
                    0 <= s < self.num_states() && #[trigger] self.state_path(s) == q,
            forall|s: int, c: int|
                0 <= s < self.num_states() && 0 <= c < 257 && #[trigger] self.next_state(s, c) != 0 ==> 0
                    < self.next_state(s, c) < self.num_states() && self.state_path(self.next_state(s, c))
                    == self.state_path(s).push(c as u16),
            forall|s: int, c: int|
                0 <= s < self.num_states() && 0 <= c < 257 && prefixes(self.patterns_view()).contains(
                    self.state_path(s).push(c as u16),
                ) ==> #[trigger] self.next_state(s, c) != 0,
            self.num_states() == prefixes(self.patterns_view()).len(),
    {
        let pv = self.patterns_view();
        let n = self.n();
        assert forall|s: int| 0 <= s < n implies prefixes(pv).contains(#[trigger] self.state_path(s)) by {
            if s > 0 {
                assert(self.spells_prefix(self.paths@[s], self.full()));
                let i = choose|i: int| 0 <= i < self.np() && prefix_within(self.paths@[s], #[trigger] self.pat(i), self.full()[i]);
                let k = self.paths@[s].len() as int;
                assert(pv[i] == self.pat(i));
                assert(self.paths@[s] =~= pv[i].take(k));
            } else {
                assert(self.paths@[0].len() == 0);
            }
        }
        assert forall|q: Seq<u16>| #[trigger] prefixes(pv).contains(q) implies exists|s: int|
            0 <= s < n && #[trigger] self.state_path(s) == q by {
            if q.len() == 0 {
                assert(self.state_path(0) =~= q);
            } else {
                let (i, k) = choose|i: int, k: int| 0 <= i < pv.len() && 0 <= k <= pv[i].len() && q == pv[i].take(k);
                assert(pv[i] == self.pat(i));
                assert(k <= self.full()[i]);
                let w = self.walks@[i][k];
                assert(self.path(w) =~= q);
                assert(self.state_path(w) == q);
            }
        }
        assert forall|s: int, c: int|
            0 <= s < n && 0 <= c < 257 && prefixes(pv).contains(self.state_path(s).push(c as u16)) implies
            #[trigger] self.next_state(s, c) != 0 by {
            let q = self.state_path(s).push(c as u16);
            let t = choose|t: int| 0 <= t < n && #[trigger] self.state_path(t) == q;
            assert(t != 0) by {
                assert(self.paths@[0].len() == 0);
            }
            let p = self.parents@[t];
            assert(self.path(p) =~= self.path(s)) by {
                assert(q.drop_last() =~= self.state_path(s));
            }
            assert(self.paths@[p] == self.paths@[s]);
            assert(p == s);
            assert(self.path(t).last() == c as u16);
        }
        let x = set_int_range(0, n);
        let f = |s: int| self.paths@[s];
        vstd::set_lib::lemma_int_range(0, n);
        assert(x.map(f) =~= prefixes(pv)) by {
            assert forall|q: Seq<u16>| #[trigger] x.map(f).contains(q) implies prefixes(pv).contains(q) by {
                let s = choose|s: int| x.contains(s) && f(s) == q;
                assert(prefixes(pv).contains(self.state_path(s)));
            }
            assert forall|q: Seq<u16>| prefixes(pv).contains(q) implies #[trigger] x.map(f).contains(q) by {
                let s = choose|s: int| 0 <= s < n && #[trigger] self.state_path(s) == q;
                assert(x.contains(s) && f(s) == q);
            }
        }
        assert(vstd::relations::injective_on(f, x)) by {
            assert forall|a: int, b: int| x.contains(a) && x.contains(b) && #[trigger] f(a) == #[trigger] f(b) implies a == b by {
                assert(self.paths@[a] == self.paths@[b]);
            }
        }
        vstd::set_lib::lemma_map_size(x, prefixes(pv), f);
    }

    /// The matcher is well formed: a trie that holds every pattern.
    pub closed spec fn wf(&self) -> bool {
        &&& self.trie_ok()
        &&& self.patterns_ok()
        &&& self.alive_ok(self.full())
        &&& self.covered(self.full(), self.n())
    }

    /// A builder with no patterns yet.
    pub fn new() -> (r: NFABuilder)
        ensures
            r.patterns_view() == Seq::<Seq<u16>>::empty(),
    {
        let r = NFABuilder { patterns: Vec::new() };
        assert(r.patterns_view() =~= Seq::<Seq<u16>>::empty());
        r
    }
}

impl NFABuilder {
    /// The patterns added so far, in order.
    pub closed spec fn patterns_view(&self) -> Seq<Seq<u16>> {
        Seq::new(self.patterns@.len(), |i: int| self.patterns@[i]@)
    }

    /// The matcher for the patterns added, each of whose symbols is a byte value or the
    /// wildcard.
    pub fn build(self) -> (r: NFA)
        requires
            forall|i: int|
                0 <= i < self.patterns_view().len() ==> symbols_valid(#[trigger] self.patterns_view()[i]),
        ensures
            r.wf(),
            r.patterns_view() == self.patterns_view(),
            r.num_states() <= 1 + total_length(self.patterns_view()),
            r.num_states() == prefixes(self.patterns_view()).len(),
    {
        let ghost pv = self.patterns_view();
        let np = self.patterns.len();
        let mut alive: Vec<AliveSet> = Vec::new();
        alive.push(alive_new(np));
        let mut trans: Vec<usize> = Vec::new();
        push_empty_row(&mut trans);
        let ghost paths0 = seq![Seq::<u16>::empty()];
        let ghost parents0 = seq![0int];
        let ghost walks0 = Seq::new(np as nat, |i: int| Seq::<int>::empty());
        let mut nfa = NFA {
            trans,
            alive,
            patterns: self.patterns,
            paths: Ghost(paths0),
            parents: Ghost(parents0),
            walks: Ghost(walks0),
        };
        proof {
            assert(nfa.patterns_view() =~= pv);
            assert forall|i: int| 0 <= i < nfa.np() implies symbols_valid(#[trigger] nfa.pat(i)) by {
                assert(nfa.pat(i) == pv[i]);
            }
            assert forall|s: int, c: int|
                0 <= s < nfa.n() && 0 <= c < 257 implies #[trigger] nfa.tr(s, c) == 0 by {}
            assert forall|s1: int, s2: int|
                #![trigger nfa.paths@[s1], nfa.paths@[s2]]
                0 <= s1 < nfa.n() && 0 <= s2 < nfa.n() && nfa.paths@[s1] == nfa.paths@[s2] implies s1
                    == s2 by {}
        }
        let mut i: usize = 0;
        while i < np
            invariant
                nfa.trie_ok(),
                nfa.patterns_ok(),
                nfa.alive_ok(
                    Seq::new(np as nat, |j: int| if j < i { nfa.pat(j).len() as int } else { -1 }),
                ),
                nfa.covered(
                    Seq::new(np as nat, |j: int| if j < i { nfa.pat(j).len() as int } else { -1 }),
                    nfa.n(),
                ),
                nfa.np() == np,
                i <= np,
                nfa.patterns_view() == pv,
                nfa.n() <= 1 + total_length(pv.take(i as int)),
            decreases np - i,
        {
            let ghost ins = Seq::new(np as nat, |j: int| if j < i { nfa.pat(j).len() as int } else { -1 });
            assert(pv.take(i + 1).drop_last() =~= pv.take(i as int));
            assert(nfa.pat(i as int) == pv[i as int]);
            let ghost pats0 = nfa.patterns;
            nfa.insert_pattern(i, Ghost(ins));
            proof {
                assert(nfa.patterns == pats0);
                assert(ins.update(i as int, nfa.pat(i as int).len() as int) =~= Seq::new(
                    np as nat,
                    |j: int| if j < i + 1 { nfa.pat(j).len() as int } else { -1 },
                ));
            }
            i = i + 1;
        }
        assert(Seq::new(np as nat, |j: int| if j < i { nfa.pat(j).len() as int } else { -1 }) =~= nfa.full());
        assert(pv.take(i as int) =~= pv);
        proof {
            nfa.lemma_trie_shape();
        }
        nfa
    }

    /// Add one pattern.
    pub fn add_pattern(&mut self, pattern: Pattern)
        ensures
            final(self).patterns_view() == old(self).patterns_view().push(pattern@),
    {
        self.patterns.push(pattern);
        assert(self.patterns_view() =~= old(self).patterns_view().push(pattern@));
    }
}

} // verus!
