//! The workspace: a loaded module together with what analysis has recovered from it:
//! which addresses start instructions, the cross-references between them, functions,
//! symbols, and the worklist of addresses still to be disassembled.
use crate::aspace::{view_mapped, view_range};
use crate::loader::{
    section_contains, section_executable, Arch, LoadedModule, Section, PERM_R, PERM_X,
};
use crate::xref::{Xref, XrefGraph, XrefType};
use vstd::prelude::*;
use vstd::set_lib::set_int_range;

verus! {

/// Longest x86 instruction, in bytes.
pub const MAX_INSN_LENGTH: usize = 15;

/// Failures of the workspace.
#[derive(Debug, Clone, Copy, PartialEq, Eq, Structural)]
pub enum WorkspaceError {
    /// No loader recognizes the buffer.
    NotSupported,
    /// The address is not mapped, or not where the request needs it.
    InvalidAddress,
    /// The read runs past the mapped region.
    BufferOverrun,
    /// The decoder rejected the bytes at the address.
    InvalidInstruction,
    /// A relocation entry carries an unknown type.
    InvalidRelocType,
    /// Malformed PE or FLIRT input.
    ParseError,
    /// The address already has a symbol.
    SymbolExists,
}

/// How control leaves an instruction, as the decoder classified it.
#[derive(Debug, Clone, Copy, PartialEq, Eq, Structural)]
pub enum FlowKind {
    /// Any instruction that only falls through.
    Sequential,
    /// A return, or an indirect jump whose target is unknown: no successor.
    NoSuccessor,
    /// A relative unconditional jump.
    Jump,
    /// A relative conditional jump.
    ConditionalJump,
    /// A conditional move.
    ConditionalMove,
    /// A relative call.
    Call,
}

/// A decoded instruction, as far as control flow goes: its length, its kind, and the
/// displacement of a relative branch, counted from the end of the instruction.
#[derive(Debug, Clone, Copy, PartialEq, Eq, Structural)]
pub struct InsnFlow {
    pub length: u8,
    pub kind: FlowKind,
    pub displacement: i64,
}

/// The flow of an instruction of mnemonic class `kind`, once it is known whether it has a
/// relative target: a jump without one has no known successor, a call or a conditional
/// jump without one only falls through, and every other class stays as it is.
pub fn settle_kind(kind: FlowKind, relative: bool) -> (r: FlowKind)
    ensures
        relative ==> r == kind,
        !relative && kind == FlowKind::Jump ==> r == FlowKind::NoSuccessor,
        !relative && (kind == FlowKind::Call || kind == FlowKind::ConditionalJump) ==> r == FlowKind::Sequential,
        !relative && kind != FlowKind::Jump && kind != FlowKind::Call && kind != FlowKind::ConditionalJump ==> r == kind,
{
    if relative {
        return kind;
    }
    match kind {
        FlowKind::Jump => FlowKind::NoSuccessor,
        FlowKind::Call => FlowKind::Sequential,
        FlowKind::ConditionalJump => FlowKind::Sequential,
        _ => kind,
    }
}

/// The references an instruction at `rva` makes, as (kind, destination) pairs, before
/// destinations outside executable code are dropped.
pub open spec fn flow_xrefs(rva: int, f: InsnFlow) -> Seq<(XrefType, int)> {
    let next = rva + f.length;
    let target = rva + f.length + f.displacement;
    match f.kind {
        FlowKind::Sequential => seq![(XrefType::Fallthrough, next)],
        FlowKind::NoSuccessor => seq![],
        FlowKind::Jump => seq![(XrefType::UnconditionalJump, target)],
        FlowKind::ConditionalJump => seq![
            (XrefType::ConditionalJump, target),
            (XrefType::Fallthrough, next),
        ],
        FlowKind::ConditionalMove => seq![
            (XrefType::ConditionalMove, next),
            (XrefType::Fallthrough, next),
        ],
        FlowKind::Call => seq![(XrefType::Call, target), (XrefType::Fallthrough, next)],
    }
}

/// Some executable section holds `a`.
pub open spec fn in_executable(sections: Seq<Section>, a: int) -> bool {
    exists|i: int|
        0 <= i < sections.len() && section_executable(#[trigger] sections[i]) && section_contains(
            sections[i],
            a,
        )
}

/// A name given to an address.
#[derive(Debug)]
pub struct SymbolEntry {
    pub rva: u64,
    pub name: Vec<u8>,
}

/// A run of instructions entered only at its start and left only at its end.
#[derive(Debug)]
pub struct BasicBlock {
    pub addr: u64,
    /// Size in bytes.
    pub length: u64,
    pub predecessors: Vec<u64>,
    pub successors: Vec<u64>,
    pub insns: Vec<u64>,
}

/// A copy of `v`.
pub fn copy_u64s(v: &Vec<u64>) -> (r: Vec<u64>)
    ensures
        r@ == v@,
{
    let mut r: Vec<u64> = Vec::new();
    let mut i: usize = 0;
    while i < v.len()
        invariant
            i <= v@.len(),
            r@ == v@.take(i as int),
        decreases v@.len() - i,
    {
        r.push(v[i]);
        i = i + 1;
        assert(r@ =~= v@.take(i as int));
    }
    assert(v@.take(i as int) =~= v@);
    r
}

/// Every queued address and every block start is the entry or a successor of a block.
#[verifier::opaque]
pub open spec fn origins_ok(rva: u64, bbs: Seq<BasicBlock>, queue: Seq<u64>) -> bool {
    &&& forall|q: int| 0 <= q < queue.len() ==> #[trigger] queue[q] == rva || exists|j: int, k: int|
            0 <= j < bbs.len() && 0 <= k < bbs[j].successors@.len() && #[trigger] bbs[j].successors@[k] == queue[q]
    &&& forall|i: int| 0 <= i < bbs.len() ==> (#[trigger] bbs[i]).addr == rva || exists|j: int, k: int|
            0 <= j < bbs.len() && 0 <= k < bbs[j].successors@.len() && #[trigger] bbs[j].successors@[k] == bbs[i].addr
}

/// Adding a block found at queue position `head - 1`, and queueing its successors, keeps
/// every queued address and every block start either the entry or a successor of a block.
proof fn lemma_origins_step(rva: u64, old_bbs: Seq<BasicBlock>, bbs: Seq<BasicBlock>, q0: Seq<u64>, queue: Seq<u64>, head: int)
    requires
        0 < head <= q0.len(),
        bbs.len() == old_bbs.len() + 1,
        forall|i: int| 0 <= i < old_bbs.len() ==> bbs[i] == old_bbs[i],
        bbs[old_bbs.len() as int].addr == q0[head - 1],
        queue == q0 + bbs[old_bbs.len() as int].successors@,
        origins_ok(rva, old_bbs, q0),
    ensures
        origins_ok(rva, bbs, queue),
{
    reveal(origins_ok);
    assert forall|q: int| 0 <= q < queue.len() implies #[trigger] queue[q] == rva || exists|j: int, k: int|
        0 <= j < bbs.len() && 0 <= k < bbs[j].successors@.len() && #[trigger] bbs[j].successors@[k] == queue[q] by {
        if q < q0.len() {
            assert(queue[q] == q0[q]);
            if q0[q] != rva {
                let (j, k) = choose|j: int, k: int|
                    0 <= j < old_bbs.len() && 0 <= k < old_bbs[j].successors@.len() && #[trigger] old_bbs[j].successors@[k] == q0[q];
                assert(bbs[j] == old_bbs[j]);
            }
        } else {
            let j = old_bbs.len() as int;
            assert(bbs[j].successors@[q - q0.len()] == queue[q]);
        }
    }
    assert forall|i: int| 0 <= i < bbs.len() implies (#[trigger] bbs[i]).addr == rva || exists|j: int, k: int|
        0 <= j < bbs.len() && 0 <= k < bbs[j].successors@.len() && #[trigger] bbs[j].successors@[k] == bbs[i].addr by {
        let target = bbs[i].addr;
        if i < old_bbs.len() {
            assert(bbs[i] == old_bbs[i]);
            if target != rva {
                let (j, k) = choose|j: int, k: int|
                    0 <= j < old_bbs.len() && 0 <= k < old_bbs[j].successors@.len() && #[trigger] old_bbs[j].successors@[k] == target;
                assert(bbs[j] == old_bbs[j]);
            }
        } else {
            assert(target == q0[head - 1]);
            if target != rva {
                let (j, k) = choose|j: int, k: int|
                    0 <= j < old_bbs.len() && 0 <= k < old_bbs[j].successors@.len() && #[trigger] old_bbs[j].successors@[k] == q0[head - 1];
                assert(bbs[j] == old_bbs[j]);
            }
        }
    }
}

/// A jump or a conditional move: a reference that is neither a fall-through nor a call.
pub open spec fn is_flow(x: Xref) -> bool {
    x.typ != XrefType::Fallthrough && x.typ != XrefType::Call
}

/// The destinations of the jumps and conditional moves among `xs`, in order.
pub open spec fn flow_targets(xs: Seq<Xref>) -> Seq<u64>
    decreases xs.len(),
{
    if xs.len() == 0 {
        Seq::empty()
    } else {
        flow_targets(xs.drop_last()) + if is_flow(xs.last()) {
            seq![xs.last().dst]
        } else {
            Seq::<u64>::empty()
        }
    }
}

/// A loaded module and the analysis state over it.
pub struct Workspace {
    arch: Arch,
    module: LoadedModule,
    /// Per address below the capacity: the length of the instruction that starts there,
    /// or `0`.
    insn_lengths: Vec<u8>,
    /// Per address below the capacity: does an executable section hold it?
    executable: Vec<bool>,
    xrefs: XrefGraph,
    functions: Vec<u64>,
    symbols: Vec<SymbolEntry>,
    pending: Vec<u64>,
}

impl Workspace {
    /// The architecture the module is decoded for.
    pub closed spec fn arch_of(&self) -> Arch {
        self.arch
    }

    /// The loaded module.
    pub closed spec fn module_of(&self) -> LoadedModule {
        self.module
    }

    /// The architecture the module is decoded for.
    pub fn arch(&self) -> (r: Arch)
        ensures
            r == self.arch_of(),
    {
        self.arch
    }

    /// The loaded module.
    pub fn module(&self) -> (r: &LoadedModule)
        ensures
            *r == self.module_of(),
    {
        &self.module
    }

    /// Number of addresses that analysis covers.
    pub closed spec fn capacity(&self) -> nat {
        self.insn_lengths@.len()
    }

    /// Length of the instruction at `a`, or `0` when none is recorded there.
    pub closed spec fn insn_len(&self, a: int) -> nat {
        if 0 <= a < self.insn_lengths@.len() {
            self.insn_lengths@[a] as nat
        } else {
            0
        }
    }

    /// `a` is covered and lies in executable code.
    pub closed spec fn is_exec(&self, a: int) -> bool {
        0 <= a < self.executable@.len() && self.executable@[a]
    }

    /// The workspace holds the reference `x`.
    pub closed spec fn has_xref(&self, x: Xref) -> bool {
        self.xrefs.has(x)
    }

    /// The addresses waiting to be disassembled, oldest first.
    pub closed spec fn pending_view(&self) -> Seq<u64> {
        self.pending@
    }

    /// The function entries, in the order they were made.
    pub closed spec fn functions_view(&self) -> Seq<u64> {
        self.functions@
    }

    /// The references from `a`, in the order they were added.
    pub closed spec fn xrefs_from_view(&self, a: int) -> Seq<Xref> {
        self.xrefs.from_view(a)
    }

    /// The references to `a`, in the order they were added.
    pub closed spec fn xrefs_to_view(&self, a: int) -> Seq<Xref> {
        self.xrefs.to_view(a)
    }

    /// The symbols, in the order they were made.
    pub closed spec fn symbols_view(&self) -> Seq<(u64, Seq<u8>)> {
        self.symbols@.map_values(|s: SymbolEntry| (s.rva, s.name@))
    }

    /// The analysis state is consistent with the module and with itself.
    pub closed spec fn wf(&self) -> bool {
        &&& self.module.wf()
        &&& self.executable@.len() == self.insn_lengths@.len()
        &&& self.xrefs.wf()
        &&& self.xrefs.capacity() == self.insn_lengths@.len()
        &&& self.insn_lengths@.len() + MAX_INSN_LENGTH < usize::MAX
        &&& forall|a: int|
            0 <= a < self.executable@.len() ==> (#[trigger] self.executable@[a] == in_executable(
                self.module.sections@,
                a,
            ))
        &&& forall|a: int| 0 <= a < self.insn_lengths@.len() ==> #[trigger] self.insn_lengths@[a] <= MAX_INSN_LENGTH
        &&& forall|x: Xref|
            #[trigger] self.xrefs.has(x) ==> {
                &&& self.insn_len(x.src as int) != 0
                &&& self.is_exec(x.dst as int)
                &&& (x.typ == XrefType::Fallthrough || x.typ == XrefType::ConditionalMove) ==> x.dst
                    == x.src + self.insn_len(x.src as int)
            }
        &&& forall|k: int| 0 <= k < self.pending@.len() ==> self.is_exec(#[trigger] self.pending@[k] as int)
        &&& forall|k: int| 0 <= k < self.functions@.len() ==> self.is_exec(#[trigger] self.functions@[k] as int)
    }

    /// A workspace over `module` with nothing analysed yet. Analysis covers the
    /// addresses below the end of the last section.
    pub fn new(arch: Arch, module: LoadedModule) -> (r: Result<Workspace, WorkspaceError>)
        requires
            module.wf(),
        ensures
            r matches Ok(ws) ==> {
                &&& ws.wf()
                &&& ws.arch_of() == arch
                &&& ws.module_of() == module
                &&& ws.capacity() == crate::loader::max_end(module.sections@)
                &&& forall|a: int| 0 <= a < ws.capacity() ==> #[trigger] ws.insn_len(a) == 0
                &&& forall|x: Xref| !(#[trigger] ws.has_xref(x))
                &&& ws.pending_view().len() == 0
                &&& ws.functions_view().len() == 0
                &&& ws.symbols_view().len() == 0
            },
            r is Err ==> crate::loader::max_end(module.sections@) + MAX_INSN_LENGTH >= usize::MAX,
    {
        let cap64 = module.max_address();
        if cap64 >= (usize::MAX - MAX_INSN_LENGTH) as u64 {
            return Err(WorkspaceError::NotSupported);
        }
        let cap = cap64 as usize;
        let mut insn_lengths: Vec<u8> = Vec::with_capacity(cap);
        let mut executable: Vec<bool> = Vec::with_capacity(cap);
        let mut a: usize = 0;
        while a < cap
            invariant
                module.wf(),
                a <= cap,
                insn_lengths@.len() == a,
                executable@.len() == a,
                forall|b: int| 0 <= b < a ==> #[trigger] insn_lengths@[b] == 0,
                forall|b: int| 0 <= b < a ==> (#[trigger] executable@[b] == in_executable(module.sections@, b)),
            decreases cap - a,
        {
            let mut found = false;
            let mut i: usize = 0;
            while i < module.sections.len()
                invariant
                    i <= module.sections@.len(),
                    found == exists|j: int|
                        0 <= j < i && section_executable(#[trigger] module.sections@[j])
                            && section_contains(module.sections@[j], a as int),
                decreases module.sections@.len() - i,
            {
                if module.sections[i].is_executable() && module.sections[i].contains(a as u64) {
                    found = true;
                }
                i = i + 1;
            }
            insn_lengths.push(0);
            executable.push(found);
            a = a + 1;
        }
        let xrefs = XrefGraph::with_capacity(cap);
        let ws = Workspace {
            arch,
            module,
            insn_lengths,
            executable,
            xrefs,
            functions: Vec::new(),
            symbols: Vec::new(),
            pending: Vec::new(),
        };
        proof {
            assert(ws.symbols_view() =~= Seq::<(u64, Seq<u8>)>::empty());
        }
        Ok(ws)
    }

    /// Is `a` covered and in executable code?
    pub fn is_executable(&self, a: u64) -> (r: bool)
        requires
            self.wf(),
        ensures
            r == self.is_exec(a as int),
    {
        a < self.executable.len() as u64 && self.executable[a as usize]
    }

    /// Length of the instruction recorded at `a`, or `0`.
    pub fn get_insn_length(&self, a: u64) -> (r: u8)
        requires
            self.wf(),
        ensures
            r == self.insn_len(a as int),
    {
        if a < self.insn_lengths.len() as u64 {
            self.insn_lengths[a as usize]
        } else {
            0
        }
    }

    /// Does an instruction start at `a`?
    pub fn is_insn(&self, a: u64) -> (r: bool)
        requires
            self.wf(),
        ensures
            r == (self.insn_len(a as int) != 0),
    {
        self.get_insn_length(a) != 0
    }

    /// Queue `rva` for disassembly. `InvalidAddress` unless it lies in executable code.
    pub fn make_insn(&mut self, rva: u64) -> (r: Result<(), WorkspaceError>)
        requires
            old(self).wf(),
        ensures
            final(self).wf(),
            r is Ok <==> old(self).is_exec(rva as int),
            r matches Err(e) ==> e == WorkspaceError::InvalidAddress,
            r is Ok ==> final(self).pending_view() == old(self).pending_view().push(rva),
            r is Err ==> final(self).pending_view() == old(self).pending_view(),
            final(self).capacity() == old(self).capacity(),
            forall|a: int| #[trigger] final(self).insn_len(a) == old(self).insn_len(a),
            forall|x: Xref| #[trigger] final(self).has_xref(x) == old(self).has_xref(x),
            final(self).functions_view() == old(self).functions_view(),
            final(self).symbols_view() == old(self).symbols_view(),
            final(self).module_of() == old(self).module_of(),
            final(self).arch_of() == old(self).arch_of(),
            forall|a: int| #[trigger] final(self).is_exec(a) == old(self).is_exec(a),
    {
        if !self.is_executable(rva) {
            return Err(WorkspaceError::InvalidAddress);
        }
        self.pending.push(rva);
        Ok(())
    }

    /// Mark `rva` as a function entry and queue it for disassembly. `InvalidAddress`
    /// unless it lies in executable code.
    pub fn make_function(&mut self, rva: u64) -> (r: Result<(), WorkspaceError>)
        requires
            old(self).wf(),
        ensures
            final(self).wf(),
            r is Ok <==> old(self).is_exec(rva as int),
            r matches Err(e) ==> e == WorkspaceError::InvalidAddress,
            r is Ok ==> final(self).pending_view() == old(self).pending_view().push(rva),
            r is Ok ==> final(self).functions_view().contains(rva),
            r is Ok ==> old(self).functions_view().contains(rva) ==> final(self).functions_view()
                == old(self).functions_view(),
            r is Ok ==> !old(self).functions_view().contains(rva) ==> final(self).functions_view()
                == old(self).functions_view().push(rva),
            r is Err ==> final(self).pending_view() == old(self).pending_view(),
            r is Err ==> final(self).functions_view() == old(self).functions_view(),
            final(self).capacity() == old(self).capacity(),
            forall|a: int| #[trigger] final(self).insn_len(a) == old(self).insn_len(a),
            forall|x: Xref| #[trigger] final(self).has_xref(x) == old(self).has_xref(x),
            final(self).symbols_view() == old(self).symbols_view(),
            final(self).module_of() == old(self).module_of(),
            final(self).arch_of() == old(self).arch_of(),
            forall|a: int| #[trigger] final(self).is_exec(a) == old(self).is_exec(a),
    {
        if !self.is_executable(rva) {
            return Err(WorkspaceError::InvalidAddress);
        }
        let mut i: usize = 0;
        let mut present = false;
        while i < self.functions.len()
            invariant
                i <= self.functions@.len(),
                present == self.functions@.take(i as int).contains(rva),
            decreases self.functions@.len() - i,
        {
            proof {
                crate::workspace::lemma_take_push_contains(self.functions@, i as int, rva);
            }
            if self.functions[i] == rva {
                present = true;
            }
            i = i + 1;
        }
        assert(self.functions@.take(i as int) =~= self.functions@);
        if !present {
            self.functions.push(rva);
            assert(self.functions@[self.functions@.len() - 1] == rva);
        }
        self.pending.push(rva);
        Ok(())
    }

    /// Give `rva` the name `name`. `SymbolExists` when it already has one.
    pub fn make_symbol(&mut self, rva: u64, name: Vec<u8>) -> (r: Result<(), WorkspaceError>)
        requires
            old(self).wf(),
        ensures
            final(self).wf(),
            r is Err <==> exists|k: int|
                0 <= k < old(self).symbols_view().len() && (#[trigger] old(self).symbols_view()[k]).0
                    == rva,
            r is Ok ==> final(self).symbols_view() == old(self).symbols_view().push((rva, name@)),
            r is Err ==> final(self).symbols_view() == old(self).symbols_view(),
            r matches Err(e) ==> e == WorkspaceError::SymbolExists,
            final(self).capacity() == old(self).capacity(),
            forall|a: int| #[trigger] final(self).insn_len(a) == old(self).insn_len(a),
            forall|x: Xref| #[trigger] final(self).has_xref(x) == old(self).has_xref(x),
            final(self).pending_view() == old(self).pending_view(),
            final(self).functions_view() == old(self).functions_view(),
            final(self).module_of() == old(self).module_of(),
            final(self).arch_of() == old(self).arch_of(),
            forall|a: int| #[trigger] final(self).is_exec(a) == old(self).is_exec(a),
    {
        let mut i: usize = 0;
        while i < self.symbols.len()
            invariant
                *self == *old(self),
                self.wf(),
                i <= self.symbols@.len(),
                forall|k: int| 0 <= k < i ==> (#[trigger] self.symbols@[k]).rva != rva,
            decreases self.symbols@.len() - i,
        {
            if self.symbols[i].rva == rva {
                assert(self.symbols_view()[i as int].0 == rva);
                return Err(WorkspaceError::SymbolExists);
            }
            i = i + 1;
        }
        proof {
            assert forall|k: int| 0 <= k < self.symbols_view().len() implies (
            #[trigger] self.symbols_view()[k]).0 != rva by {
                assert(self.symbols@[k].rva != rva);
            }
        }
        let ghost name_view = name@;
        self.symbols.push(SymbolEntry { rva, name });
        assert(self.symbols_view() =~= old(self).symbols_view().push((rva, name_view)));
        Ok(())
    }

    /// The name of `rva`, if it has one.
    pub fn get_symbol(&self, rva: u64) -> (r: Option<&Vec<u8>>)
        ensures
            r matches Some(n) ==> self.symbols_view().contains((rva, n@)),
            r is None ==> forall|k: int|
                0 <= k < self.symbols_view().len() ==> (#[trigger] self.symbols_view()[k]).0 != rva,
    {
        let mut i: usize = 0;
        while i < self.symbols.len()
            invariant
                i <= self.symbols@.len(),
                forall|k: int| 0 <= k < i ==> (#[trigger] self.symbols@[k]).rva != rva,
            decreases self.symbols@.len() - i,
        {
            if self.symbols[i].rva == rva {
                assert(self.symbols_view()[i as int] == (rva, self.symbols@[i as int].name@));
                return Some(&self.symbols[i].name);
            }
            i = i + 1;
        }
        proof {
            assert forall|k: int| 0 <= k < self.symbols_view().len() implies (
            #[trigger] self.symbols_view()[k]).0 != rva by {
                assert(self.symbols@[k].rva != rva);
            }
        }
        None
    }

    /// `d` is covered, executable, and no instruction is recorded there yet.
    pub closed spec fn needs_work(&self, d: int) -> bool {
        self.is_exec(d) && self.insn_len(d) == 0
    }

    /// The destinations of `s` that are queued, in order: those executable that hold no
    /// instruction yet.
    pub closed spec fn queued(&self, s: Seq<(XrefType, int)>) -> Seq<u64>
        decreases s.len(),
    {
        if s.len() == 0 {
            Seq::empty()
        } else {
            let d = s.last().1;
            self.queued(s.drop_last()) + if self.needs_work(d) {
                seq![d as u64]
            } else {
                Seq::<u64>::empty()
            }
        }
    }

    /// Take the next queued address that holds no instruction yet, most recent first.
    pub fn next_pending(&mut self) -> (r: Option<u64>)
        requires
            old(self).wf(),
        ensures
            final(self).wf(),
            r matches Some(a) ==> final(self).needs_work(a as int),
            r matches Some(a) ==> exists|skipped: Seq<u64>|
                old(self).pending_view() == final(self).pending_view() + seq![a] + skipped
                    && forall|k: int| 0 <= k < skipped.len() ==> old(self).insn_len(#[trigger] skipped[k] as int) != 0,
            r is None ==> final(self).pending_view().len() == 0,
            r is None ==> forall|k: int|
                0 <= k < old(self).pending_view().len() ==> old(self).insn_len(
                    #[trigger] old(self).pending_view()[k] as int,
                ) != 0,
            final(self).capacity() == old(self).capacity(),
            forall|a: int| #[trigger] final(self).insn_len(a) == old(self).insn_len(a),
            forall|x: Xref| #[trigger] final(self).has_xref(x) == old(self).has_xref(x),
            final(self).functions_view() == old(self).functions_view(),
            final(self).symbols_view() == old(self).symbols_view(),
            final(self).module_of() == old(self).module_of(),
            final(self).arch_of() == old(self).arch_of(),
            forall|a: int| #[trigger] final(self).is_exec(a) == old(self).is_exec(a),
    {
        let ghost all = self.pending@;
        while self.pending.len() > 0
            invariant
                self.wf(),
                self.insn_lengths == old(self).insn_lengths,
                self.executable == old(self).executable,
                self.xrefs == old(self).xrefs,
                self.functions == old(self).functions,
                self.symbols == old(self).symbols,
                self.module == old(self).module,
                self.arch == old(self).arch,
                all == old(self).pending@,
                self.pending@.len() <= all.len(),
                self.pending@ == all.take(self.pending@.len() as int),
                forall|k: int|
                    self.pending@.len() <= k < all.len() ==> self.insn_len(#[trigger] all[k] as int) != 0,
            decreases self.pending@.len(),
        {
            let ghost before = self.pending@;
            let a = self.pending.pop().unwrap();
            assert(before == self.pending@.push(a));
            assert(all[self.pending@.len() as int] == a);
            assert(self.pending@ =~= all.take(self.pending@.len() as int));
            assert(self.is_exec(a as int)) by {
                assert(before[before.len() - 1] == a);
            }
            if !self.is_insn(a) {
                let ghost skipped = all.subrange(self.pending@.len() + 1int, all.len() as int);
                assert(all =~= self.pending@ + seq![a] + skipped);
                assert forall|k: int| 0 <= k < skipped.len() implies old(self).insn_len(
                    #[trigger] skipped[k] as int,
                ) != 0 by {
                    assert(skipped[k] == all[self.pending@.len() + 1 + k]);
                }
                assert(old(self).pending_view() == self.pending_view() + seq![a] + skipped
                    && forall|k: int| 0 <= k < skipped.len() ==> old(self).insn_len(#[trigger] skipped[k] as int) != 0);
                return Some(a);
            }
        }
        None
    }

    /// The bytes at `rva` for the decoder: up to `MAX_INSN_LENGTH` of them, fewer where
    /// the mapped region ends sooner, none when `rva` is not mapped.
    pub fn insn_bytes(&self, rva: u64) -> (r: Vec<u8>)
        requires
            self.wf(),
            rva + MAX_INSN_LENGTH <= u64::MAX,
        ensures
            r@.len() <= MAX_INSN_LENGTH,
            view_mapped(self.module_of().address_space@, rva as int, rva + r@.len()),
            r@ == view_range(self.module_of().address_space@, rva as int, rva + r@.len()),
            r@.len() < MAX_INSN_LENGTH ==> !view_mapped(
                self.module_of().address_space@,
                rva as int,
                rva + r@.len() + 1,
            ),
    {
        let mut n: usize = MAX_INSN_LENGTH;
        while n > 0
            invariant
                self.wf(),
                n <= MAX_INSN_LENGTH,
                rva + MAX_INSN_LENGTH <= u64::MAX,
                n < MAX_INSN_LENGTH ==> !view_mapped(self.module.address_space@, rva as int, rva + n + 1),
            decreases n,
        {
            match self.module.address_space.slice(rva, rva + n as u64) {
                Ok(v) => {
                    return v;
                },
                Err(_) => {},
            }
            n = n - 1;
        }
        Vec::new()
    }

    /// Record the reference of kind `typ` from the instruction at `rva` to `d`, when `d`
    /// is executable; queue `d` when it holds no instruction yet.
    fn add_flow(&mut self, rva: u64, typ: XrefType, d: i128)
        requires
            old(self).wf(),
            old(self).insn_len(rva as int) != 0,
            rva < old(self).capacity(),
            (typ == XrefType::Fallthrough || typ == XrefType::ConditionalMove) ==> d == rva
                + old(self).insn_len(rva as int),
        ensures
            final(self).wf(),
            forall|y: Xref|
                #[trigger] final(self).has_xref(y) <==> (old(self).has_xref(y) || (old(
                    self,
                ).is_exec(d as int) && y == Xref { src: rva, dst: d as u64, typ })),
            final(self).pending_view() == old(self).pending_view() + if old(self).needs_work(d as int) {
                seq![d as u64]
            } else {
                Seq::<u64>::empty()
            },
            final(self).insn_lengths == old(self).insn_lengths,
            final(self).executable == old(self).executable,
            final(self).functions == old(self).functions,
            final(self).symbols == old(self).symbols,
            final(self).module == old(self).module,
            final(self).arch == old(self).arch,
    {
        if d < 0 || d >= self.insn_lengths.len() as i128 {
            assert(old(self).pending_view() + Seq::<u64>::empty() =~= old(self).pending_view());
            return;
        }
        let du = d as u64;
        if !self.executable[du as usize] {
            assert(old(self).pending_view() + Seq::<u64>::empty() =~= old(self).pending_view());
            return;
        }
        let x = Xref { src: rva, dst: du, typ };
        self.xrefs.add(x);
        if self.insn_lengths[du as usize] == 0 {
            self.pending.push(du);
            assert(self.pending_view() =~= old(self).pending_view() + seq![d as u64]);
        } else {
            assert(self.pending_view() =~= old(self).pending_view() + Seq::<u64>::empty());
        }
        assert forall|y: Xref| #[trigger] self.xrefs.has(y) implies {
            &&& self.insn_len(y.src as int) != 0
            &&& self.is_exec(y.dst as int)
            &&& (y.typ == XrefType::Fallthrough || y.typ == XrefType::ConditionalMove) ==> y.dst
                == y.src + self.insn_len(y.src as int)
        } by {
            if y != x {
                assert(old(self).xrefs.has(y));
            }
        }
        assert forall|k: int| 0 <= k < self.pending@.len() implies self.is_exec(#[trigger] self.pending@[k] as int) by {
            if k < old(self).pending@.len() {
                assert(self.pending@[k] == old(self).pending@[k]);
            }
        }
    }

    /// Record what the decoder made of the bytes at `rva`. With no instruction (`None`),
    /// or one already recorded there, nothing changes. Otherwise its length is recorded,
    /// its references to executable code are added, and those destinations that hold no
    /// instruction yet are queued.
    pub fn record_insn(&mut self, rva: u64, decoded: Option<InsnFlow>)
        requires
            old(self).wf(),
            rva < old(self).capacity(),
            decoded matches Some(f) ==> 1 <= f.length <= MAX_INSN_LENGTH,
        ensures
            final(self).wf(),
            final(self).capacity() == old(self).capacity(),
            final(self).functions_view() == old(self).functions_view(),
            final(self).symbols_view() == old(self).symbols_view(),
            final(self).module_of() == old(self).module_of(),
            final(self).arch_of() == old(self).arch_of(),
            forall|a: int| #[trigger] final(self).is_exec(a) == old(self).is_exec(a),
            decoded is None || old(self).insn_len(rva as int) != 0 ==> {
                &&& forall|a: int| #[trigger] final(self).insn_len(a) == old(self).insn_len(a)
                &&& forall|x: Xref| #[trigger] final(self).has_xref(x) == old(self).has_xref(x)
                &&& final(self).pending_view() == old(self).pending_view()
            },
            decoded is Some && old(self).insn_len(rva as int) == 0 ==> {
                let f = decoded.unwrap();
                &&& final(self).insn_len(rva as int) == f.length
                &&& forall|a: int| a != rva ==> #[trigger] final(self).insn_len(a) == old(self).insn_len(a)
                &&& forall|x: Xref|
                    #[trigger] final(self).has_xref(x) <==> (old(self).has_xref(x) || (x.src == rva
                        && final(self).is_exec(x.dst as int) && flow_xrefs(rva as int, f).contains(
                        (x.typ, x.dst as int),
                    )))
                &&& final(self).pending_view() == old(self).pending_view() + final(self).queued(
                    flow_xrefs(rva as int, f),
                )
            },
    {
        let f = match decoded {
            None => return,
            Some(f) => f,
        };
        if self.insn_lengths[rva as usize] != 0 {
            return;
        }
        self.insn_lengths.set(rva as usize, f.length);
        proof {
            assert forall|x: Xref| #[trigger] self.xrefs.has(x) implies {
                &&& self.insn_len(x.src as int) != 0
                &&& self.is_exec(x.dst as int)
                &&& (x.typ == XrefType::Fallthrough || x.typ == XrefType::ConditionalMove) ==> x.dst
                    == x.src + self.insn_len(x.src as int)
            } by {
                assert(old(self).xrefs.has(x));
                assert(x.src != rva);
            }
        }
        let ghost marked = *self;
        let next: i128 = rva as i128 + f.length as i128;
        let target: i128 = next + f.displacement as i128;
        let ghost fx = flow_xrefs(rva as int, f);
        match f.kind {
            FlowKind::Sequential => {
                self.add_flow(rva, XrefType::Fallthrough, next);
                proof { lemma_queued_one(*self, fx); }
            },
            FlowKind::NoSuccessor => {
                proof { lemma_queued_none(*self, fx); }
            },
            FlowKind::Jump => {
                self.add_flow(rva, XrefType::UnconditionalJump, target);
                proof { lemma_queued_one(*self, fx); }
            },
            FlowKind::ConditionalJump => {
                self.add_flow(rva, XrefType::ConditionalJump, target);
                self.add_flow(rva, XrefType::Fallthrough, next);
                proof { lemma_queued_two(*self, fx); }
            },
            FlowKind::ConditionalMove => {
                self.add_flow(rva, XrefType::ConditionalMove, next);
                self.add_flow(rva, XrefType::Fallthrough, next);
                proof { lemma_queued_two(*self, fx); }
            },
            FlowKind::Call => {
                self.add_flow(rva, XrefType::Call, target);
                self.add_flow(rva, XrefType::Fallthrough, next);
                proof { lemma_queued_two(*self, fx); }
            },
        }
        proof {
            assert forall|x: Xref|
                #[trigger] self.has_xref(x) <==> (old(self).has_xref(x) || (x.src == rva
                    && self.is_exec(x.dst as int) && fx.contains((x.typ, x.dst as int)))) by {
                if fx.len() > 0 && x == (Xref { src: rva, dst: fx[0].1 as u64, typ: fx[0].0 }) {
                    assert(fx[0] == (x.typ, x.dst as int) || !self.is_exec(fx[0].1));
                }
                if fx.len() > 1 && x == (Xref { src: rva, dst: fx[1].1 as u64, typ: fx[1].0 }) {
                    assert(fx[1] == (x.typ, x.dst as int) || !self.is_exec(fx[1].1));
                }
                if x.src == rva && self.is_exec(x.dst as int) && fx.contains((x.typ, x.dst as int)) {
                    let k = choose|k: int| 0 <= k < fx.len() && fx[k] == (x.typ, x.dst as int);
                    assert(k == 0 || k == 1);
                }
            }
        }
    }

    /// The bytes `[rva, rva + length)`. `InvalidAddress` when any of them is not mapped.
    pub fn read_bytes(&self, rva: u64, length: usize) -> (r: Result<Vec<u8>, WorkspaceError>)
        requires
            self.wf(),
            rva + length <= u64::MAX,
        ensures
            r is Ok <==> view_mapped(self.module_of().address_space@, rva as int, rva + length),
            r matches Ok(v) ==> v@ == view_range(
                self.module_of().address_space@,
                rva as int,
                rva + length,
            ),
            r matches Err(e) ==> e == WorkspaceError::InvalidAddress,
    {
        match self.module.address_space.slice(rva, rva + length as u64) {
            Ok(v) => Ok(v),
            Err(_) => Err(WorkspaceError::InvalidAddress),
        }
    }

    /// Fill `buf` with the bytes from `rva` on. `InvalidAddress` when any of them is not
    /// mapped; `buf` may then be partly written.
    pub fn read_bytes_into(&self, rva: u64, buf: &mut Vec<u8>) -> (r: Result<(), WorkspaceError>)
        requires
            self.wf(),
            rva + old(buf)@.len() <= u64::MAX,
        ensures
            final(buf)@.len() == old(buf)@.len(),
            r is Ok <==> view_mapped(self.module_of().address_space@, rva as int, rva + old(buf)@.len()),
            r is Ok ==> final(buf)@ == view_range(
                self.module_of().address_space@,
                rva as int,
                rva + old(buf)@.len(),
            ),
    {
        match self.module.address_space.read_into(rva, buf) {
            Ok(()) => Ok(()),
            Err(_) => Err(WorkspaceError::InvalidAddress),
        }
    }

    /// The byte at `rva`.
    pub fn read_u8(&self, rva: u64) -> (r: Result<u8, WorkspaceError>)
        requires
            self.wf(),
            rva < u64::MAX,
        ensures
            r is Ok <==> view_mapped(self.module_of().address_space@, rva as int, rva + 1),
            r matches Ok(v) ==> v == view_range(self.module_of().address_space@, rva as int, rva + 1)[0],
    {
        let b = self.read_bytes(rva, 1)?;
        Ok(b[0])
    }

    /// The little-endian word at `rva`.
    pub fn read_u16(&self, rva: u64) -> (r: Result<u16, WorkspaceError>)
        requires
            self.wf(),
            rva + 2 <= u64::MAX,
        ensures
            r is Ok <==> view_mapped(self.module_of().address_space@, rva as int, rva + 2),
            r matches Ok(v) ==> v == le_u16(view_range(self.module_of().address_space@, rva as int, rva + 2)),
    {
        let b = self.read_bytes(rva, 2)?;
        Ok(u16_from_le(b.as_slice()))
    }

    /// The little-endian double word at `rva`.
    pub fn read_u32(&self, rva: u64) -> (r: Result<u32, WorkspaceError>)
        requires
            self.wf(),
            rva + 4 <= u64::MAX,
        ensures
            r is Ok <==> view_mapped(self.module_of().address_space@, rva as int, rva + 4),
            r matches Ok(v) ==> v == le_u32(view_range(self.module_of().address_space@, rva as int, rva + 4)),
    {
        let b = self.read_bytes(rva, 4)?;
        Ok(u32_from_le(b.as_slice()))
    }

    /// The little-endian quad word at `rva`.
    pub fn read_u64(&self, rva: u64) -> (r: Result<u64, WorkspaceError>)
        requires
            self.wf(),
            rva + 8 <= u64::MAX,
        ensures
            r is Ok <==> view_mapped(self.module_of().address_space@, rva as int, rva + 8),
            r matches Ok(v) ==> v == le_u64(view_range(self.module_of().address_space@, rva as int, rva + 8)),
    {
        let b = self.read_bytes(rva, 8)?;
        Ok(u64_from_le(b.as_slice()))
    }

    /// The little-endian two's-complement double word at `rva`.
    pub fn read_i32(&self, rva: u64) -> (r: Result<i32, WorkspaceError>)
        requires
            self.wf(),
            rva + 4 <= u64::MAX,
        ensures
            r is Ok <==> view_mapped(self.module_of().address_space@, rva as int, rva + 4),
            r matches Ok(v) ==> v == (le_u32(view_range(self.module_of().address_space@, rva as int, rva + 4)) as u32) as i32,
    {
        let v = self.read_u32(rva)?;
        Ok(v as i32)
    }

    /// The little-endian two's-complement quad word at `rva`.
    pub fn read_i64(&self, rva: u64) -> (r: Result<i64, WorkspaceError>)
        requires
            self.wf(),
            rva + 8 <= u64::MAX,
        ensures
            r is Ok <==> view_mapped(self.module_of().address_space@, rva as int, rva + 8),
            r matches Ok(v) ==> v == (le_u64(view_range(self.module_of().address_space@, rva as int, rva + 8)) as u64) as i64,
    {
        let v = self.read_u64(rva)?;
        Ok(v as i64)
    }

    /// The pointer-sized little-endian value at `rva`: four bytes on x32, eight on x64.
    pub fn read_va(&self, rva: u64) -> (r: Result<u64, WorkspaceError>)
        requires
            self.wf(),
            rva + 8 <= u64::MAX,
        ensures
            ({
                let n = self.arch_of().spec_pointer_size() as int;
                &&& r is Ok <==> view_mapped(self.module_of().address_space@, rva as int, rva + n)
                &&& r matches Ok(v) ==> v == le_value(view_range(self.module_of().address_space@, rva as int, rva + n))
            }),
    {
        match self.arch {
            Arch::X32 => {
                let v = self.read_u32(rva)?;
                Ok(v as u64)
            },
            Arch::X64 => self.read_u64(rva),
        }
    }

    /// Same as `read_va`: a pointer-sized value, read as an offset.
    pub fn read_rva(&self, rva: u64) -> (r: Result<u64, WorkspaceError>)
        requires
            self.wf(),
            rva + 8 <= u64::MAX,
        ensures
            ({
                let n = self.arch_of().spec_pointer_size() as int;
                &&& r is Ok <==> view_mapped(self.module_of().address_space@, rva as int, rva + n)
                &&& r matches Ok(v) ==> v == le_value(view_range(self.module_of().address_space@, rva as int, rva + n))
            }),
    {
        self.read_va(rva)
    }

    /// The offset of `va` from the module's base, if `va` is not below the base.
    pub fn rva(&self, va: u64) -> (r: Option<u64>)
        ensures
            r is Some <==> va >= self.module_of().base_address,
            r matches Some(x) ==> x == va - self.module_of().base_address,
    {
        if va < self.module.base_address {
            None
        } else {
            Some(va - self.module.base_address)
        }
    }

    /// The address of `rva` given the module's base, if it fits.
    pub fn va(&self, rva: u64) -> (r: Option<u64>)
        ensures
            r is Some <==> self.module_of().base_address + rva <= u64::MAX,
            r matches Some(x) ==> x == self.module_of().base_address + rva,
    {
        self.module.base_address.checked_add(rva)
    }

    /// Is `[rva, rva + length)` usable as `perms` asks: all mapped when reading is asked
    /// for, all in executable code when execution is.
    pub fn probe(&self, rva: u64, length: usize, perms: crate::loader::Permissions) -> (r: bool)
        requires
            self.wf(),
            rva + length <= u64::MAX,
        ensures
            r == ((perms.0 & PERM_X != 0 ==> forall|a: int| rva <= a < rva + length ==> #[trigger] self.is_exec(a))
                && (perms.0 & PERM_R != 0 ==> view_mapped(self.module_of().address_space@, rva as int, rva + length))),
    {
        if perms.0 & PERM_X != 0 {
            let mut i: usize = 0;
            while i < length
                invariant
                    self.wf(),
                    perms.0 & PERM_X != 0,
                    i <= length,
                    rva + length <= u64::MAX,
                    forall|a: int| rva <= a < rva + i ==> #[trigger] self.is_exec(a),
                decreases length - i,
            {
                if !self.is_executable(rva + i as u64) {
                    assert(!self.is_exec(rva + i));
                    assert(!(forall|a: int| rva <= a < rva + length ==> #[trigger] self.is_exec(a)));
                    return false;
                }
                i = i + 1;
            }
        }
        if perms.0 & PERM_R != 0 {
            if self.read_bytes(rva, length).is_err() {
                return false;
            }
        }
        true
    }

    /// Every reference from `x` other than a call is a fall-through.
    pub open spec fn only_falls_through(&self, x: int) -> bool {
        forall|m: int|
            0 <= m < self.xrefs_from_view(x).len() && (#[trigger] self.xrefs_from_view(x)[m]).typ
                != XrefType::Call ==> self.xrefs_from_view(x)[m].typ == XrefType::Fallthrough
    }

    /// Every reference from `x` other than a call lands in `succs`.
    pub open spec fn flows_into(&self, x: int, succs: Seq<u64>) -> bool {
        forall|m: int|
            0 <= m < self.xrefs_from_view(x).len() && (#[trigger] self.xrefs_from_view(x)[m]).typ
                != XrefType::Call ==> succs.contains(self.xrefs_from_view(x)[m].dst)
    }

    /// A reference other than a call leads from `a` to `b`.
    pub open spec fn flow_step(&self, a: int, b: int) -> bool {
        exists|m: int|
            0 <= m < self.xrefs_from_view(a).len() && (#[trigger] self.xrefs_from_view(a)[m]).typ
                != XrefType::Call && self.xrefs_from_view(a)[m].dst == b
    }

    /// `a` is `entry`, or is reached from it in at most `n` steps along references other
    /// than calls.
    pub open spec fn flow_reaches(&self, entry: int, a: int, n: nat) -> bool
        decreases n,
    {
        if n == 0 {
            a == entry
        } else {
            self.flow_reaches(entry, a, (n - 1) as nat) || exists|b: int|
                self.flow_reaches(entry, b, (n - 1) as nat) && #[trigger] self.flow_step(b, a)
        }
    }

    /// A reference from `a` falls through.
    pub open spec fn has_ft(&self, a: int) -> bool {
        exists|m: int|
            0 <= m < self.xrefs_from_view(a).len() && (#[trigger] self.xrefs_from_view(a)[m]).typ
                == XrefType::Fallthrough
    }

    /// A jump or conditional move leaves `a`.
    pub open spec fn has_flow_from(&self, a: int) -> bool {
        exists|m: int| 0 <= m < self.xrefs_from_view(a).len() && is_flow(#[trigger] self.xrefs_from_view(a)[m])
    }

    /// A jump or conditional move reaches `a`.
    pub open spec fn has_flow_to(&self, a: int) -> bool {
        exists|m: int| 0 <= m < self.xrefs_to_view(a).len() && is_flow(#[trigger] self.xrefs_to_view(a)[m])
    }

    /// The instruction at `a` ends its basic block: it does not fall through, or it
    /// branches, or the instruction after it is a branch target.
    pub open spec fn ends_block(&self, a: int) -> bool {
        !self.has_ft(a) || self.has_flow_from(a) || self.has_flow_to(a + self.insn_len(a))
    }

    /// The successors of a block that ends at `a`: the targets of its jumps and
    /// conditional moves, in order, then the next address when it falls through.
    pub open spec fn block_successors(&self, a: int) -> Seq<u64> {
        flow_targets(self.xrefs_from_view(a)) + if self.has_ft(a) {
            seq![(a + self.insn_len(a)) as u64]
        } else {
            Seq::<u64>::empty()
        }
    }

    /// The block follows the rule: each instruction but the last falls through, does not
    /// branch, and is followed by no branch target; the last ends the block; the
    /// successors are those of the last instruction.
    pub open spec fn block_rule(&self, ins: Seq<u64>, succs: Seq<u64>) -> bool {
        &&& forall|k: int|
            0 <= k < ins.len() - 1 ==> self.has_ft(#[trigger] ins[k] as int) && !self.has_flow_from(ins[k] as int)
                && !self.has_flow_to(ins[k + 1] as int)
        &&& self.ends_block(ins.last() as int)
        &&& succs == self.block_successors(ins.last() as int)
    }

    /// Reaching `a` and stepping to `b` reaches `b`.
    proof fn lemma_reached_step(&self, entry: int, a: int, b: int)
        requires
            self.reached(entry, a),
            self.flow_step(a, b),
        ensures
            self.reached(entry, b),
    {
        let n = choose|n: nat| #[trigger] self.flow_reaches(entry, a, n);
        assert(self.flow_reaches(entry, b, n + 1));
    }

    /// Everything reached from `entry` is an instruction of some block, when the blocks
    /// hold `entry` and are closed under steps along references other than calls.
    proof fn lemma_blocks_hold_reached(&self, entry: int, blocks: Seq<BasicBlock>, a: int, n: nat)
        requires
            exists|i: int, k: int| 0 <= i < blocks.len() && 0 <= k < blocks[i].insns@.len() && blocks[i].insns@[k] == entry,
            forall|i: int, k: int, m: int|
                0 <= i < blocks.len() && 0 <= k < blocks[i].insns@.len() && 0 <= m < self.xrefs_from_view(
                    blocks[i].insns@[k] as int,
                ).len() && (#[trigger] self.xrefs_from_view(blocks[i].insns@[k] as int)[m]).typ
                    != XrefType::Call ==> exists|j: int, k2: int|
                    0 <= j < blocks.len() && 0 <= k2 < blocks[j].insns@.len() && #[trigger] blocks[j].insns@[k2]
                        == self.xrefs_from_view(blocks[i].insns@[k] as int)[m].dst,
            self.flow_reaches(entry, a, n),
        ensures
            exists|i: int, k: int| 0 <= i < blocks.len() && 0 <= k < blocks[i].insns@.len() && blocks[i].insns@[k] == a,
        decreases n,
    {
        if n > 0 {
            if self.flow_reaches(entry, a, (n - 1) as nat) {
                self.lemma_blocks_hold_reached(entry, blocks, a, (n - 1) as nat);
            } else {
                let b = choose|b: int| self.flow_reaches(entry, b, (n - 1) as nat) && #[trigger] self.flow_step(b, a);
                self.lemma_blocks_hold_reached(entry, blocks, b, (n - 1) as nat);
                let (i, k) = choose|i: int, k: int| 0 <= i < blocks.len() && 0 <= k < blocks[i].insns@.len() && blocks[i].insns@[k] == b;
                let m = choose|m: int|
                    0 <= m < self.xrefs_from_view(b).len() && (#[trigger] self.xrefs_from_view(b)[m]).typ
                        != XrefType::Call && self.xrefs_from_view(b)[m].dst == a;
                assert(self.xrefs_from_view(blocks[i].insns@[k] as int)[m].typ != XrefType::Call);
            }
        }
    }

    /// `a` is reached from `entry` along references other than calls.
    pub open spec fn reached(&self, entry: int, a: int) -> bool {
        exists|n: nat| self.flow_reaches(entry, a, n)
    }

    /// Each instruction of the run `insns` is reached from `entry` when its first is.
    proof fn lemma_chain_reaches(&self, entry: int, insns: Seq<u64>, n0: nat, k: int)
        requires
            0 <= k < insns.len(),
            self.flow_reaches(entry, insns[0] as int, n0),
            forall|j: int| 0 <= j < insns.len() - 1 ==> self.flow_step(#[trigger] insns[j] as int, insns[j + 1] as int),
        ensures
            self.flow_reaches(entry, insns[k] as int, (n0 + k) as nat),
        decreases k,
    {
        if k > 0 {
            self.lemma_chain_reaches(entry, insns, n0, k - 1);
            assert(self.flow_step(insns[k - 1] as int, insns[k] as int));
        }
    }

    /// `insns` is a run of recorded instructions from `start`, each following the last.
    pub open spec fn is_chain(&self, start: int, insns: Seq<u64>) -> bool {
        &&& insns.len() > 0
        &&& insns[0] == start
        &&& forall|k: int| 0 <= k < insns.len() ==> self.insn_len(#[trigger] insns[k] as int) != 0
        &&& forall|k: int|
            0 <= k < insns.len() - 1 ==> #[trigger] insns[k + 1] == insns[k] + self.insn_len(
                insns[k] as int,
            )
    }

    /// The instructions of the basic block at `start`, its successors, and its length in
    /// bytes. The block runs on while an instruction only falls through to a next one
    /// that no branch targets.
    #[verifier::rlimit(100)]
    fn walk_block(&self, start: u64, Ghost(entry): Ghost<int>) -> (r: Result<(Vec<u64>, Vec<u64>, u64), WorkspaceError>)
        requires
            self.wf(),
            self.reached(entry, start as int),
        ensures
            r is Err ==> exists|a: int| self.reached(entry, a) && #[trigger] self.insn_len(a) == 0,
            r matches Err(e) ==> e == WorkspaceError::InvalidInstruction,
            r matches Ok((insns, succs, length)) ==> {
                &&& self.is_chain(start as int, insns@)
                &&& forall|k: int| 0 <= k < succs@.len() ==> (#[trigger] succs@[k]) < self.capacity()
                &&& length == insns@.last() + self.insn_len(insns@.last() as int) - start
                &&& forall|k: int| 0 <= k < insns@.len() - 1 ==> self.only_falls_through(#[trigger] insns@[k] as int)
                &&& self.flows_into(insns@.last() as int, succs@)
                &&& forall|k: int| 0 <= k < insns@.len() - 1 ==> self.flow_step(#[trigger] insns@[k] as int, insns@[k + 1] as int)
                &&& forall|z: int| 0 <= z < succs@.len() ==> self.flow_step(insns@.last() as int, #[trigger] succs@[z] as int)
                &&& self.block_rule(insns@, succs@)
            },
    {
        let cap = self.insn_lengths.len() as u64;
        let mut insns: Vec<u64> = Vec::new();
        let mut succs: Vec<u64> = Vec::new();
        let mut cur = start;
        loop
            invariant
                self.wf(),
                cap == self.capacity(),
                insns@.len() == 0 ==> cur == start,
                cur >= start,
                insns@.len() > 0 ==> self.is_chain(start as int, insns@),
                insns@.len() > 0 ==> cur == insns@.last() + self.insn_len(insns@.last() as int),
                insns@.len() > 0 ==> cur < cap,
                forall|k: int| 0 <= k < succs@.len() ==> (#[trigger] succs@[k]) < cap,
                forall|k: int| 0 <= k < insns@.len() ==> self.only_falls_through(#[trigger] insns@[k] as int),
                forall|k: int| 0 <= k < insns@.len() - 1 ==> self.flow_step(#[trigger] insns@[k] as int, insns@[k + 1] as int),
                insns@.len() > 0 ==> self.flow_step(insns@.last() as int, cur as int),
                succs@.len() == 0,
                self.reached(entry, cur as int),
                forall|k: int|
                    0 <= k < insns@.len() ==> self.has_ft(#[trigger] insns@[k] as int) && !self.has_flow_from(insns@[k] as int)
                        && !self.has_flow_to(insns@[k] + self.insn_len(insns@[k] as int)),
            decreases cap + 16 - cur, 
        {
            let len = self.get_insn_length(cur);
            if len == 0 {
                assert(self.insn_len(cur as int) == 0);
                return Err(WorkspaceError::InvalidInstruction);
            }
            let ghost before = insns@;
            insns.push(cur);
            proof {
                assert forall|k: int| 0 <= k < insns@.len() - 1 implies self.flow_step(#[trigger] insns@[k] as int, insns@[k + 1] as int) by {
                    if k < before.len() - 1 {
                        assert(insns@[k + 1] == before[k + 1]);
                    } else {
                        assert(insns@[k] == before.last());
                        assert(insns@[k + 1] == cur);
                    }
                }
                assert forall|k: int| 0 <= k < insns@.len() - 1 implies #[trigger] insns@[k + 1] == insns@[k]
                    + self.insn_len(insns@[k] as int) by {
                    if k < before.len() - 1 {
                        assert(insns@[k + 1] == before[k + 1]);
                    }
                }
            }
            let xs = self.xrefs.xrefs_from(cur);
            let mut has_fallthrough = false;
            let mut has_flow_from = false;
            let mut i: usize = 0;
            while i < xs.len()
                invariant
                    self.wf(),
                    cap == self.capacity(),
                    cur < cap,
                    xs@ == self.xrefs.from_view(cur as int),
                    xs@ == self.xrefs_from_view(cur as int),
                    i <= xs@.len(),
                    forall|k: int| 0 <= k < succs@.len() ==> (#[trigger] succs@[k]) < cap,
                    has_fallthrough ==> self.has_xref(
                        Xref { src: cur, dst: (cur + self.insn_len(cur as int)) as u64, typ: XrefType::Fallthrough },
                    ),
                    !has_fallthrough ==> forall|m: int| 0 <= m < i ==> (#[trigger] xs@[m]).typ != XrefType::Fallthrough,
                    !has_flow_from ==> forall|m: int| 0 <= m < i ==> ((#[trigger] xs@[m]).typ == XrefType::Fallthrough || xs@[m].typ == XrefType::Call),
                    forall|m: int|
                        0 <= m < i && (#[trigger] xs@[m]).typ != XrefType::Fallthrough && xs@[m].typ != XrefType::Call
                            ==> succs@.contains(xs@[m].dst),
                    forall|z: int| 0 <= z < succs@.len() ==> self.flow_step(cur as int, #[trigger] succs@[z] as int),
                    !has_flow_from ==> succs@.len() == 0,
                    succs@ == flow_targets(xs@.take(i as int)),
                    has_fallthrough <==> exists|m: int| 0 <= m < i && (#[trigger] xs@[m]).typ == XrefType::Fallthrough,
                    has_flow_from <==> exists|m: int| 0 <= m < i && is_flow(#[trigger] xs@[m]),
                decreases xs@.len() - i,
            {
                let x = xs[i];
                proof {
                    crate::xref::lemma_from_entry(&self.xrefs, cur as int, i as int);
                    assert(self.xrefs.has(x));
                }
                let ghost s0 = succs@;
                assert(xs@.take(i + 1).drop_last() =~= xs@.take(i as int));
                assert(xs@.take(i + 1).last() == x);
                match x.typ {
                    XrefType::Fallthrough => {
                        has_fallthrough = true;
                    },
                    XrefType::Call => {},
                    _ => {
                        has_flow_from = true;
                        succs.push(x.dst);
                    },
                }
                proof {
                    assert forall|z: int| 0 <= z < succs@.len() implies self.flow_step(cur as int, #[trigger] succs@[z] as int) by {
                        if z == s0.len() {
                            assert(self.xrefs_from_view(cur as int)[i as int] == x);
                        } else {
                            assert(succs@[z] == s0[z]);
                        }
                    }
                    if is_flow(x) {
                        assert(succs@ =~= s0 + seq![x.dst]);
                    } else {
                        assert(succs@ =~= s0 + Seq::<u64>::empty());
                    }
                    assert forall|m: int|
                        0 <= m < i + 1 && (#[trigger] xs@[m]).typ != XrefType::Fallthrough && xs@[m].typ != XrefType::Call
                            implies succs@.contains(xs@[m].dst) by {
                        if succs@ != s0 {
                            crate::nfa::lemma_push_contains(s0, x.dst, xs@[m].dst);
                        }
                    }
                }
                i = i + 1;
            }
            let next = cur + len as u64;
            assert(xs@.take(i as int) =~= xs@);
            assert(self.has_ft(cur as int) == has_fallthrough) by {
                if self.has_ft(cur as int) {
                    let m = choose|m: int| 0 <= m < xs@.len() && (#[trigger] self.xrefs_from_view(cur as int)[m]).typ == XrefType::Fallthrough;
                    assert(xs@[m].typ == XrefType::Fallthrough);
                }
            }
            assert(self.has_flow_from(cur as int) == has_flow_from) by {
                if self.has_flow_from(cur as int) {
                    let m = choose|m: int| 0 <= m < xs@.len() && is_flow(#[trigger] self.xrefs_from_view(cur as int)[m]);
                    assert(is_flow(xs@[m]));
                }
            }
            proof {
                assert forall|k: int| 0 <= k < insns@.len() - 1 implies self.has_ft(#[trigger] insns@[k] as int) && !self.has_flow_from(insns@[k] as int)
                    && !self.has_flow_to(insns@[k + 1] as int) by {
                    assert(insns@[k] == before[k]);
                    assert(insns@[k + 1] == insns@[k] + self.insn_len(insns@[k] as int));
                }
            }
            if !has_fallthrough {
                proof {
                    assert(insns@.last() == cur);
                    assert(succs@ =~= self.block_successors(cur as int));
                    assert forall|m: int|
                        0 <= m < self.xrefs_from_view(cur as int).len() && (#[trigger] self.xrefs_from_view(
                            cur as int,
                        )[m]).typ != XrefType::Call implies succs@.contains(
                        self.xrefs_from_view(cur as int)[m].dst,
                    ) by {
                        assert(xs@[m] == self.xrefs_from_view(cur as int)[m]);
                    }
                }
                return Ok((insns, succs, next - start));
            }
            proof {
                let ft = Xref { src: cur, dst: (cur + self.insn_len(cur as int)) as u64, typ: XrefType::Fallthrough };
                assert(self.xrefs.has(ft));
                assert(self.is_exec(ft.dst as int));
            }
            let ghost s1 = succs@;
            proof {
                let ft = Xref { src: cur, dst: next, typ: XrefType::Fallthrough };
                assert(self.xrefs.from_view(cur as int).contains(ft));
                let m = choose|m: int| 0 <= m < self.xrefs_from_view(cur as int).len() && self.xrefs_from_view(cur as int)[m] == ft;
                assert(self.xrefs_from_view(cur as int)[m].typ != XrefType::Call);
                assert(self.flow_step(cur as int, next as int));
            }
            if has_flow_from {
                succs.push(next);
                proof {
                    self.lemma_last_flows(cur, next, xs@, s1, succs@);
                    assert forall|z: int| 0 <= z < succs@.len() implies self.flow_step(insns@.last() as int, #[trigger] succs@[z] as int) by {
                        if z < s1.len() {
                            assert(succs@[z] == s1[z]);
                        }
                    }
                    assert(s1 == flow_targets(self.xrefs_from_view(cur as int)));
                    assert(succs@ =~= self.block_successors(cur as int));
                }
                return Ok((insns, succs, next - start));
            }
            let ys = self.xrefs.xrefs_to(next);
            let mut has_flow_to = false;
            let mut j: usize = 0;
            while j < ys.len()
                invariant
                    j <= ys@.len(),
                    has_flow_to <==> exists|m: int| 0 <= m < j && is_flow(#[trigger] ys@[m]),
                    ys@ == self.xrefs_to_view(next as int),
                decreases ys@.len() - j,
            {
                match ys[j].typ {
                    XrefType::Fallthrough => {},
                    XrefType::Call => {},
                    _ => {
                        has_flow_to = true;
                    },
                }
                j = j + 1;
            }
            assert(self.has_flow_to(next as int) == has_flow_to) by {
                if self.has_flow_to(next as int) {
                    let m = choose|m: int| 0 <= m < ys@.len() && is_flow(#[trigger] self.xrefs_to_view(next as int)[m]);
                    assert(is_flow(ys@[m]));
                }
            }
            if has_flow_to {
                succs.push(next);
                proof {
                    self.lemma_last_flows(cur, next, xs@, s1, succs@);
                    assert forall|z: int| 0 <= z < succs@.len() implies self.flow_step(insns@.last() as int, #[trigger] succs@[z] as int) by {
                        if z < s1.len() {
                            assert(succs@[z] == s1[z]);
                        }
                    }
                    assert(s1 == flow_targets(self.xrefs_from_view(cur as int)));
                    assert(succs@ =~= self.block_successors(cur as int));
                }
                return Ok((insns, succs, next - start));
            }
            proof {
                self.lemma_reached_step(entry, cur as int, next as int);
                assert forall|k: int|
                    0 <= k < insns@.len() implies self.has_ft(#[trigger] insns@[k] as int) && !self.has_flow_from(insns@[k] as int)
                        && !self.has_flow_to(insns@[k] + self.insn_len(insns@[k] as int)) by {
                    if k < insns@.len() - 1 {
                        assert(insns@[k] == before[k]);
                    }
                }
                assert forall|k: int| 0 <= k < insns@.len() implies self.only_falls_through(#[trigger] insns@[k] as int) by {
                    if k == insns@.len() - 1 {
                        assert(insns@[k] == cur);
                        assert forall|m: int|
                            0 <= m < self.xrefs_from_view(cur as int).len() && (#[trigger] self.xrefs_from_view(
                                cur as int,
                            )[m]).typ != XrefType::Call implies self.xrefs_from_view(cur as int)[m].typ
                            == XrefType::Fallthrough by {
                            assert(xs@[m] == self.xrefs_from_view(cur as int)[m]);
                        }
                    } else {
                        assert(insns@[k] == before[k]);
                    }
                }
            }
            cur = next;
        }
    }

    /// With `succs` holding the targets of the branches from `cur` and then its next
    /// address, every reference from `cur` other than a call lands in `succs`.
    proof fn lemma_last_flows(&self, cur: u64, next: u64, xs: Seq<Xref>, s1: Seq<u64>, succs: Seq<u64>)
        requires
            self.wf(),
            cur < self.capacity(),
            next == cur + self.insn_len(cur as int),
            xs == self.xrefs_from_view(cur as int),
            succs == s1.push(next),
            forall|m: int|
                0 <= m < xs.len() && (#[trigger] xs[m]).typ != XrefType::Fallthrough && xs[m].typ != XrefType::Call
                    ==> s1.contains(xs[m].dst),
        ensures
            self.flows_into(cur as int, succs),
    {
        assert forall|m: int|
            0 <= m < self.xrefs_from_view(cur as int).len() && (#[trigger] self.xrefs_from_view(
                cur as int,
            )[m]).typ != XrefType::Call implies succs.contains(self.xrefs_from_view(cur as int)[m].dst) by {
            let y = xs[m];
            crate::nfa::lemma_push_contains(s1, next, y.dst);
            if y.typ == XrefType::Fallthrough {
                crate::xref::lemma_from_entry(&self.xrefs, cur as int, m);
                assert(self.xrefs.has(y));
            }
        }
    }

    /// The blocks of a function entered at `entry`: each follows the block rule and is a
    /// run of instructions; one starts at `entry`; their starts are distinct; every
    /// successor starts a block; predecessors are the inverse of successors; every
    /// instruction is reached from `entry`; and every step other than a call from an
    /// instruction of a block lands on an instruction of a block.
    pub open spec fn blocks_ok(&self, rva: u64, v: Seq<BasicBlock>) -> bool {
        &&& forall|i: int|
            0 <= i < v.len() ==> (#[trigger] v[i]).addr == rva || exists|j: int, k: int|
                0 <= j < v.len() && 0 <= k < v[j].successors@.len() && #[trigger] v[j].successors@[k] == v[i].addr
        &&& forall|i: int|
            0 <= i < v.len() ==> self.block_rule((#[trigger] v[i]).insns@, v[i].successors@)
        &&& exists|i: int| 0 <= i < v.len() && (#[trigger] v[i]).addr == rva
        &&& forall|i: int, j: int|
            0 <= i < v.len() && 0 <= j < v.len() && (#[trigger] v[i]).addr == (
            #[trigger] v[j]).addr ==> i == j
        &&& forall|i: int|
            0 <= i < v.len() ==> self.is_chain((#[trigger] v[i]).addr as int, v[i].insns@)
        &&& forall|i: int|
            0 <= i < v.len() ==> (#[trigger] v[i]).length == v[i].insns@.last()
                + self.insn_len(v[i].insns@.last() as int) - v[i].addr
        &&& forall|i: int, k: int|
            0 <= i < v.len() && 0 <= k < v[i].successors@.len() ==> exists|j: int|
                0 <= j < v.len() && (#[trigger] v[j]).addr == (
                #[trigger] v[i].successors@[k])
        &&& forall|i: int, j: int|
            0 <= i < v.len() && 0 <= j < v.len() ==> ((#[trigger] v[j]).successors@.contains(
                (#[trigger] v[i]).addr,
            ) <==> v[i].predecessors@.contains(v[j].addr))
        &&& forall|i: int, k: int|
            0 <= i < v.len() && 0 <= k < v[i].insns@.len() ==> self.reached(rva as int, #[trigger] v[i].insns@[k] as int)
        &&& forall|i: int, k: int, m: int|
            0 <= i < v.len() && 0 <= k < v[i].insns@.len() && 0 <= m < self.xrefs_from_view(
                v[i].insns@[k] as int,
            ).len() && (#[trigger] self.xrefs_from_view(v[i].insns@[k] as int)[m]).typ
                != XrefType::Call ==> exists|j: int, k2: int|
                0 <= j < v.len() && 0 <= k2 < v[j].insns@.len() && #[trigger] v[j].insns@[k2]
                    == self.xrefs_from_view(v[i].insns@[k] as int)[m].dst
    }

    /// The basic blocks reachable from `rva` along jumps and fall-throughs (not calls),
    /// each with its instructions, its successors and its predecessors.
    /// `InvalidInstruction` when the walk reaches an address that holds no instruction.
    #[verifier::rlimit(100)]
    pub fn get_basic_blocks(&self, rva: u64) -> (r: Result<Vec<BasicBlock>, WorkspaceError>)
        requires
            self.wf(),
        ensures
            r is Err <==> exists|a: int| self.reached(rva as int, a) && #[trigger] self.insn_len(a) == 0,
            r matches Err(e) ==> e == WorkspaceError::InvalidInstruction,
            r matches Ok(v) ==> self.blocks_ok(rva, v@),
    {
        let ghost cap = self.capacity() as int;
        let mut bbs: Vec<BasicBlock> = Vec::new();
        let mut queue: Vec<u64> = Vec::new();
        queue.push(rva);
        let mut head: usize = 0;
        let ghost mut starts: Set<int> = Set::empty();
        assert(self.flow_reaches(rva as int, queue@[0] as int, 0));
        assert(self.reached(rva as int, queue@[0] as int));
        assert(origins_ok(rva, bbs@, queue@)) by {
            reveal(origins_ok);
        }
        while head < queue.len()
            invariant
                self.wf(),
                cap == self.capacity(),
                head <= queue@.len(),
                queue@.len() > 0,
                queue@[0] == rva,
                head == 0 ==> bbs@.len() == 0,
                starts.finite(),
                starts.len() == bbs@.len(),
                starts.subset_of(set_int_range(0, cap)),
                forall|i: int| 0 <= i < bbs@.len() ==> #[trigger] starts.contains((bbs@[i]).addr as int),
                forall|a: int| #[trigger] starts.contains(a) ==> exists|i: int| 0 <= i < bbs@.len() && (#[trigger] bbs@[i]).addr == a,
                forall|i: int, j: int|
                    0 <= i < bbs@.len() && 0 <= j < bbs@.len() && (#[trigger] bbs@[i]).addr == (
                    #[trigger] bbs@[j]).addr ==> i == j,
                forall|i: int|
                    0 <= i < bbs@.len() ==> self.is_chain(
                        (#[trigger] bbs@[i]).addr as int,
                        bbs@[i].insns@,
                    ),
                forall|i: int|
                    0 <= i < bbs@.len() ==> (#[trigger] bbs@[i]).length == bbs@[i].insns@.last()
                        + self.insn_len(bbs@[i].insns@.last() as int) - bbs@[i].addr,
                forall|k: int| 0 <= k < head ==> starts.contains(#[trigger] queue@[k] as int),
                forall|q: int| 0 <= q < queue@.len() ==> self.reached(rva as int, #[trigger] queue@[q] as int),
                origins_ok(rva, bbs@, queue@),
                forall|i: int| 0 <= i < bbs@.len() ==> self.block_rule((#[trigger] bbs@[i]).insns@, bbs@[i].successors@),
                forall|i: int, k: int|
                    0 <= i < bbs@.len() && 0 <= k < bbs@[i].insns@.len() ==> self.reached(rva as int, #[trigger] bbs@[i].insns@[k] as int),
                forall|i: int, k: int|
                    0 <= i < bbs@.len() && 0 <= k < bbs@[i].insns@.len() - 1 ==> self.only_falls_through(
                        #[trigger] bbs@[i].insns@[k] as int,
                    ),
                forall|i: int|
                    0 <= i < bbs@.len() ==> self.flows_into(
                        (#[trigger] bbs@[i]).insns@.last() as int,
                        bbs@[i].successors@,
                    ),
                forall|i: int, k: int|
                    0 <= i < bbs@.len() && 0 <= k < bbs@[i].successors@.len() ==> queue@.contains(
                        #[trigger] bbs@[i].successors@[k],
                    ),
            decreases cap - bbs@.len(), queue@.len() - head,
        {
            let a = queue[head];
            head = head + 1;
            let mut seen = false;
            let mut i: usize = 0;
            while i < bbs.len()
                invariant
                    i <= bbs@.len(),
                    seen == exists|j: int| 0 <= j < i && (#[trigger] bbs@[j]).addr == a,
                decreases bbs@.len() - i,
            {
                if bbs[i].addr == a {
                    seen = true;
                }
                i = i + 1;
            }
            if seen {
                proof {
                    let j = choose|j: int| 0 <= j < bbs@.len() && (#[trigger] bbs@[j]).addr == a;
                    assert(starts.contains(bbs@[j].addr as int));
                }
                continue;
            }
            let (insns, succs, length) = match self.walk_block(a, Ghost(rva as int)) {
                Ok(t) => t,
                Err(e) => return Err(e),
            };
            let ghost q0 = queue@;
            proof {
                assert(self.reached(rva as int, queue@[head - 1] as int));
                let n0 = choose|n: nat| #[trigger] self.flow_reaches(rva as int, queue@[head - 1] as int, n);
                assert forall|k2: int| 0 <= k2 < insns@.len() implies self.reached(rva as int, #[trigger] insns@[k2] as int) by {
                    self.lemma_chain_reaches(rva as int, insns@, n0, k2);
                }
                let last = insns@.last();
                self.lemma_chain_reaches(rva as int, insns@, n0, insns@.len() - 1);
                assert forall|z: int| 0 <= z < succs@.len() implies self.flow_reaches(rva as int, #[trigger] succs@[z] as int, (n0 + insns@.len()) as nat) by {
                    assert(self.flow_step(last as int, succs@[z] as int));
                    assert(self.flow_reaches(rva as int, last as int, (n0 + insns@.len() - 1) as nat));
                }
            }
            let mut k: usize = 0;
            while k < succs.len()
                invariant
                    k <= succs@.len(),
                    queue@.len() == q0.len() + k,
                    forall|z: int| 0 <= z < q0.len() ==> queue@[z] == q0[z],
                    forall|z: int| 0 <= z < k ==> queue@[q0.len() + z] == succs@[z],
                decreases succs@.len() - k,
            {
                queue.push(succs[k]);
                k = k + 1;
            }
            let ghost old_bbs = bbs@;
            let ghost old_starts = starts;
            proof {
                assert(self.insn_len(a as int) != 0);
                assert(a < cap);
                starts = starts.insert(a as int);
                assert(!old_starts.contains(a as int));
                vstd::set_lib::lemma_int_range(0, cap);
                vstd::set_lib::lemma_len_subset(starts, set_int_range(0, cap));
            }
            bbs.push(BasicBlock { addr: a, length, predecessors: Vec::new(), successors: succs, insns });
            proof {
                assert forall|i: int| 0 <= i < bbs@.len() implies #[trigger] starts.contains((bbs@[i]).addr as int) by {
                    if i < old_bbs.len() {
                        assert(bbs@[i] == old_bbs[i]);
                    }
                }
                assert forall|x: int| #[trigger] starts.contains(x) implies exists|i: int| 0 <= i < bbs@.len() && (#[trigger] bbs@[i]).addr == x by {
                    if x == a {
                        assert(bbs@[bbs@.len() - 1].addr == a);
                    } else {
                        let i = choose|i: int| 0 <= i < old_bbs.len() && (#[trigger] old_bbs[i]).addr == x;
                        assert(bbs@[i] == old_bbs[i]);
                    }
                }
                assert forall|i: int, k2: int|
                    0 <= i < bbs@.len() && 0 <= k2 < bbs@[i].insns@.len() - 1 implies self.only_falls_through(
                        #[trigger] bbs@[i].insns@[k2] as int,
                    ) by {
                    if i < old_bbs.len() {
                        assert(bbs@[i] == old_bbs[i]);
                    }
                }
                assert forall|i: int|
                    0 <= i < bbs@.len() implies self.flows_into(
                        (#[trigger] bbs@[i]).insns@.last() as int,
                        bbs@[i].successors@,
                    ) by {
                    if i < old_bbs.len() {
                        assert(bbs@[i] == old_bbs[i]);
                    }
                }
                assert forall|i: int| 0 <= i < bbs@.len() implies self.block_rule((#[trigger] bbs@[i]).insns@, bbs@[i].successors@) by {
                    if i < old_bbs.len() {
                        assert(bbs@[i] == old_bbs[i]);
                    }
                }
                assert(queue@ =~= q0 + succs@);
                lemma_origins_step(rva, old_bbs, bbs@, q0, queue@, head as int);
                assert forall|q: int| 0 <= q < queue@.len() implies self.reached(rva as int, #[trigger] queue@[q] as int) by {
                    if q < q0.len() {
                        assert(queue@[q] == q0[q]);
                    } else {
                        assert(queue@[q] == succs@[q - q0.len()]);
                    }
                }
                assert forall|i: int, k2: int|
                    0 <= i < bbs@.len() && 0 <= k2 < bbs@[i].insns@.len() implies self.reached(rva as int, #[trigger] bbs@[i].insns@[k2] as int) by {
                    if i < old_bbs.len() {
                        assert(bbs@[i] == old_bbs[i]);
                    } else {
                        assert(bbs@[i].insns@[k2] == insns@[k2]);
                    }
                }
                assert forall|k2: int| 0 <= k2 < head implies starts.contains(#[trigger] queue@[k2] as int) by {
                    assert(queue@[k2] == q0[k2]);
                    if k2 < head - 1 {
                        assert(old_starts.contains(q0[k2] as int));
                    }
                }
                assert forall|i: int, k2: int|
                    0 <= i < bbs@.len() && 0 <= k2 < bbs@[i].successors@.len() implies queue@.contains(
                        #[trigger] bbs@[i].successors@[k2],
                    ) by {
                    if i < old_bbs.len() {
                        assert(bbs@[i] == old_bbs[i]);
                        let z = choose|z: int| 0 <= z < q0.len() && #[trigger] q0[z] == old_bbs[i].successors@[k2];
                        assert(queue@[z] == q0[z]);
                    } else {
                        assert(queue@[q0.len() + k2] == succs@[k2]);
                    }
                }
            }
        }
        proof {
            assert(starts.contains(queue@[0] as int));
        }
        let ghost blocks = bbs@;
        let out = self.attach_predecessors(bbs);
        proof {
            self.lemma_finish(rva, blocks, out@, queue@, starts);
        }
        Ok(out)
    }

    /// When the blocks hold `entry` and are closed under steps other than calls, every
    /// address reached from `entry` holds an instruction.
    proof fn lemma_no_gap(&self, entry: int, out: Seq<BasicBlock>)
        requires
            exists|z: int| 0 <= z < out.len() && (#[trigger] out[z]).addr == entry,
            forall|i: int| 0 <= i < out.len() ==> self.is_chain((#[trigger] out[i]).addr as int, out[i].insns@),
            forall|i: int, k: int, m: int|
                0 <= i < out.len() && 0 <= k < out[i].insns@.len() && 0 <= m < self.xrefs_from_view(
                    out[i].insns@[k] as int,
                ).len() && (#[trigger] self.xrefs_from_view(out[i].insns@[k] as int)[m]).typ
                    != XrefType::Call ==> exists|j: int, k2: int|
                    0 <= j < out.len() && 0 <= k2 < out[j].insns@.len() && #[trigger] out[j].insns@[k2]
                        == self.xrefs_from_view(out[i].insns@[k] as int)[m].dst,
        ensures
            forall|a: int| self.reached(entry, a) ==> #[trigger] self.insn_len(a) != 0,
    {
        let z0 = choose|z: int| 0 <= z < out.len() && (#[trigger] out[z]).addr == entry;
        assert(self.is_chain(out[z0].addr as int, out[z0].insns@));
        assert(out[z0].insns@[0] == entry);
        assert forall|a: int| self.reached(entry, a) implies #[trigger] self.insn_len(a) != 0 by {
            let n = choose|n: nat| #[trigger] self.flow_reaches(entry, a, n);
            self.lemma_blocks_hold_reached(entry, out, a, n);
            let (i, k) = choose|i: int, k: int| 0 <= i < out.len() && 0 <= k < out[i].insns@.len() && out[i].insns@[k] == a;
            assert(self.is_chain(out[i].addr as int, out[i].insns@));
        }
    }

    /// A step other than a call from an instruction of a block lands on an instruction of
    /// a block: inside a block it is the fall-through to the next instruction, and from
    /// the last one it is a successor, which starts a block.
    proof fn lemma_closure(&self, blocks: Seq<BasicBlock>, out: Seq<BasicBlock>, queue: Seq<u64>, starts: Set<int>)
        requires
            self.wf(),
            forall|a: int| #[trigger] starts.contains(a) ==> exists|i: int| 0 <= i < blocks.len() && (#[trigger] blocks[i]).addr == a,
            forall|i: int| 0 <= i < blocks.len() ==> self.is_chain((#[trigger] blocks[i]).addr as int, blocks[i].insns@),
            forall|k: int| 0 <= k < queue.len() ==> starts.contains(#[trigger] queue[k] as int),
            forall|i: int, k: int|
                0 <= i < blocks.len() && 0 <= k < blocks[i].insns@.len() - 1 ==> self.only_falls_through(
                    #[trigger] blocks[i].insns@[k] as int,
                ),
            forall|i: int| 0 <= i < blocks.len() ==> self.flows_into((#[trigger] blocks[i]).insns@.last() as int, blocks[i].successors@),
            forall|i: int, k: int|
                0 <= i < blocks.len() && 0 <= k < blocks[i].successors@.len() ==> queue.contains(
                    #[trigger] blocks[i].successors@[k],
                ),
            out.len() == blocks.len(),
            forall|z: int|
                0 <= z < blocks.len() ==> {
                    &&& (#[trigger] out[z]).addr == blocks[z].addr
                    &&& out[z].insns == blocks[z].insns
                    &&& out[z].successors == blocks[z].successors
                },
        ensures
            forall|i: int, k: int, m: int|
                0 <= i < out.len() && 0 <= k < out[i].insns@.len() && 0 <= m < self.xrefs_from_view(
                    out[i].insns@[k] as int,
                ).len() && (#[trigger] self.xrefs_from_view(out[i].insns@[k] as int)[m]).typ
                    != XrefType::Call ==> exists|j: int, k2: int|
                    0 <= j < out.len() && 0 <= k2 < out[j].insns@.len() && #[trigger] out[j].insns@[k2]
                        == self.xrefs_from_view(out[i].insns@[k] as int)[m].dst,
    {
            assert forall|i: int, k: int, m: int|
                0 <= i < out.len() && 0 <= k < out[i].insns@.len() && 0 <= m < self.xrefs_from_view(
                    out[i].insns@[k] as int,
                ).len() && (#[trigger] self.xrefs_from_view(out[i].insns@[k] as int)[m]).typ
                    != XrefType::Call implies exists|j: int, k2: int|
                    0 <= j < out.len() && 0 <= k2 < out[j].insns@.len() && #[trigger] out[j].insns@[k2]
                        == self.xrefs_from_view(out[i].insns@[k] as int)[m].dst by {
                let ins = blocks[i].insns@;
                let x = ins[k];
                let y = self.xrefs_from_view(x as int)[m];
                assert(self.is_chain(blocks[i].addr as int, ins));
                assert(self.insn_len(x as int) != 0);
                lemma_insn_bounds(self, x as int);
                crate::xref::lemma_from_entry(&self.xrefs, x as int, m);
                if k < ins.len() - 1 {
                    assert(self.only_falls_through(ins[k] as int));
                    assert(y.typ == XrefType::Fallthrough);
                    assert(self.xrefs.has(y));
                    assert(ins[k + 1] == x + self.insn_len(x as int));
                    assert(out[i].insns@[k + 1] == y.dst);
                } else {
                    assert(self.flows_into(ins.last() as int, blocks[i].successors@));
                    assert(blocks[i].successors@.contains(y.dst));
                    let z = choose|z: int| 0 <= z < blocks[i].successors@.len() && #[trigger] blocks[i].successors@[z] == y.dst;
                    assert(queue.contains(blocks[i].successors@[z]));
                    let q = choose|q: int| 0 <= q < queue.len() && #[trigger] queue[q] == y.dst;
                    assert(starts.contains(queue[q] as int));
                    let j = choose|j: int| 0 <= j < blocks.len() && (#[trigger] blocks[j]).addr == y.dst;
                    assert(self.is_chain(blocks[j].addr as int, blocks[j].insns@));
                    assert(out[j].insns@[0] == y.dst);
                }
            }
    }

    /// What the walk leaves, once the queue is empty, makes the blocks well formed.
    #[verifier::rlimit(100)]
    proof fn lemma_finish(&self, rva: u64, blocks: Seq<BasicBlock>, out: Seq<BasicBlock>, queue: Seq<u64>, starts: Set<int>)
        requires
            self.wf(),
            queue.len() > 0,
            queue[0] == rva,
            forall|i: int| 0 <= i < blocks.len() ==> #[trigger] starts.contains((blocks[i]).addr as int),
            forall|a: int| #[trigger] starts.contains(a) ==> exists|i: int| 0 <= i < blocks.len() && (#[trigger] blocks[i]).addr == a,
            forall|i: int, j: int|
                0 <= i < blocks.len() && 0 <= j < blocks.len() && (#[trigger] blocks[i]).addr == (
                #[trigger] blocks[j]).addr ==> i == j,
            forall|i: int| 0 <= i < blocks.len() ==> self.is_chain((#[trigger] blocks[i]).addr as int, blocks[i].insns@),
            forall|i: int|
                0 <= i < blocks.len() ==> (#[trigger] blocks[i]).length == blocks[i].insns@.last()
                    + self.insn_len(blocks[i].insns@.last() as int) - blocks[i].addr,
            forall|k: int| 0 <= k < queue.len() ==> starts.contains(#[trigger] queue[k] as int),
            forall|i: int| 0 <= i < blocks.len() ==> self.block_rule((#[trigger] blocks[i]).insns@, blocks[i].successors@),
            origins_ok(rva, blocks, queue),
            forall|i: int, k: int|
                0 <= i < blocks.len() && 0 <= k < blocks[i].insns@.len() ==> self.reached(rva as int, #[trigger] blocks[i].insns@[k] as int),
            forall|i: int, k: int|
                0 <= i < blocks.len() && 0 <= k < blocks[i].insns@.len() - 1 ==> self.only_falls_through(
                    #[trigger] blocks[i].insns@[k] as int,
                ),
            forall|i: int| 0 <= i < blocks.len() ==> self.flows_into((#[trigger] blocks[i]).insns@.last() as int, blocks[i].successors@),
            forall|i: int, k: int|
                0 <= i < blocks.len() && 0 <= k < blocks[i].successors@.len() ==> queue.contains(
                    #[trigger] blocks[i].successors@[k],
                ),
            out.len() == blocks.len(),
            forall|z: int|
                0 <= z < blocks.len() ==> {
                    &&& (#[trigger] out[z]).addr == blocks[z].addr
                    &&& out[z].length == blocks[z].length
                    &&& out[z].insns == blocks[z].insns
                    &&& out[z].successors == blocks[z].successors
                },
            forall|i: int, j: int|
                0 <= i < blocks.len() && 0 <= j < blocks.len() ==> ((#[trigger] blocks[j]).successors@.contains(
                    (#[trigger] blocks[i]).addr,
                ) <==> out[i].predecessors@.contains(blocks[j].addr)),
        ensures
            self.blocks_ok(rva, out),
            forall|a: int| self.reached(rva as int, a) ==> #[trigger] self.insn_len(a) != 0,
    {
        {
            assert forall|i2: int, j: int|
                0 <= i2 < out.len() && 0 <= j < out.len() && (#[trigger] out[i2]).addr == (
                #[trigger] out[j]).addr implies i2 == j by {
                assert(blocks[i2].addr == blocks[j].addr);
            }
            let z0 = choose|z: int| 0 <= z < blocks.len() && (#[trigger] blocks[z]).addr == rva;
            assert(out[z0].addr == rva);
            assert forall|i2: int| 0 <= i2 < out.len() implies self.is_chain(
                (#[trigger] out[i2]).addr as int,
                out[i2].insns@,
            ) && out[i2].length == out[i2].insns@.last() + self.insn_len(out[i2].insns@.last() as int)
                - out[i2].addr by {
                assert(self.is_chain(blocks[i2].addr as int, blocks[i2].insns@));
            }
            assert forall|i2: int, j: int|
                0 <= i2 < out.len() && 0 <= j < out.len() implies ((#[trigger] out[j]).successors@.contains(
                    (#[trigger] out[i2]).addr,
                ) <==> out[i2].predecessors@.contains(out[j].addr)) by {
                assert(blocks[j].successors@.contains(blocks[i2].addr) <==> out[i2].predecessors@.contains(blocks[j].addr));
            }
            assert forall|i2: int, k: int|
                0 <= i2 < out.len() && 0 <= k < out[i2].successors@.len() implies exists|j: int|
                    0 <= j < out.len() && (#[trigger] out[j]).addr == (
                    #[trigger] out[i2].successors@[k]) by {
                let s = blocks[i2].successors@[k];
                assert(queue.contains(s));
                let z = choose|z: int| 0 <= z < queue.len() && #[trigger] queue[z] == s;
                assert(starts.contains(queue[z] as int));
                let j = choose|j: int| 0 <= j < blocks.len() && (#[trigger] blocks[j]).addr == s;
                assert(out[j].addr == s);
            }
        }
        self.lemma_closure(blocks, out, queue, starts);
        reveal(origins_ok);
        assert forall|i: int| 0 <= i < out.len() implies (#[trigger] out[i]).addr == rva || exists|j: int, k: int|
                0 <= j < out.len() && 0 <= k < out[j].successors@.len() && #[trigger] out[j].successors@[k] == out[i].addr by {
            if blocks[i].addr != rva {
                let (j, k) = choose|j: int, k: int|
                    0 <= j < blocks.len() && 0 <= k < blocks[j].successors@.len() && #[trigger] blocks[j].successors@[k] == blocks[i].addr;
                assert(out[j].successors@[k] == out[i].addr);
            }
        }
        {
            assert forall|i: int, k: int|
                0 <= i < out.len() && 0 <= k < out[i].insns@.len() implies self.reached(rva as int, #[trigger] out[i].insns@[k] as int) by {
                assert(out[i].insns@[k] == blocks[i].insns@[k]);
            }
        }
        {
            assert forall|i: int| 0 <= i < out.len() implies self.block_rule((#[trigger] out[i]).insns@, out[i].successors@) by {
                assert(self.block_rule(blocks[i].insns@, blocks[i].successors@));
            }
            self.lemma_no_gap(rva as int, out);
        }
        let w = choose|i: int| 0 <= i < out.len() && (#[trigger] out[i]).addr == rva;
    }

    /// The blocks with their predecessor lists filled in.
    fn attach_predecessors(&self, bbs: Vec<BasicBlock>) -> (out: Vec<BasicBlock>)
        requires
            forall|i: int, j: int|
                0 <= i < bbs@.len() && 0 <= j < bbs@.len() && (#[trigger] bbs@[i]).addr == (
                #[trigger] bbs@[j]).addr ==> i == j,
        ensures
            out@.len() == bbs@.len(),
            forall|z: int|
                0 <= z < bbs@.len() ==> {
                    &&& (#[trigger] out@[z]).addr == bbs@[z].addr
                    &&& out@[z].length == bbs@[z].length
                    &&& out@[z].insns == bbs@[z].insns
                    &&& out@[z].successors == bbs@[z].successors
                },
            forall|i: int, j: int|
                0 <= i < bbs@.len() && 0 <= j < bbs@.len() ==> ((#[trigger] bbs@[j]).successors@.contains(
                    (#[trigger] bbs@[i]).addr,
                ) <==> out@[i].predecessors@.contains(bbs@[j].addr)),
    {
        let preds = self.block_predecessors(&bbs);
        let ghost blocks = bbs@;
        let mut bbs = bbs;
        let mut i: usize = 0;
        while i < bbs.len()
            invariant
                preds@.len() == blocks.len(),
                bbs@.len() == blocks.len(),
                i <= blocks.len(),
                forall|z: int|
                    0 <= z < blocks.len() ==> {
                        &&& (#[trigger] bbs@[z]).addr == blocks[z].addr
                        &&& bbs@[z].length == blocks[z].length
                        &&& bbs@[z].insns == blocks[z].insns
                        &&& bbs@[z].successors == blocks[z].successors
                    },
                forall|z: int| 0 <= z < i ==> (#[trigger] bbs@[z]).predecessors@ == preds@[z]@,
                forall|i2: int, j: int|
                    0 <= i2 < blocks.len() && 0 <= j < blocks.len() ==> ((#[trigger] blocks[j]).successors@.contains(
                        (#[trigger] blocks[i2]).addr,
                    ) <==> preds@[i2]@.contains(blocks[j].addr)),
            decreases blocks.len() - i,
        {
            let ghost b0 = bbs@;
            let mut b = bbs.remove(i);
            b.predecessors = copy_u64s(&preds[i]);
            bbs.insert(i, b);
            proof {
                assert(bbs@ =~= b0.update(i as int, b));
            }
            i = i + 1;
        }
        bbs
    }

    /// For each block, the addresses of the blocks that have it as a successor.
    fn block_predecessors(&self, bbs: &Vec<BasicBlock>) -> (r: Vec<Vec<u64>>)
        requires
            forall|i: int, j: int|
                0 <= i < bbs@.len() && 0 <= j < bbs@.len() && (#[trigger] bbs@[i]).addr == (
                #[trigger] bbs@[j]).addr ==> i == j,
        ensures
            r@.len() == bbs@.len(),
            forall|i: int, j: int|
                0 <= i < bbs@.len() && 0 <= j < bbs@.len() ==> ((#[trigger] bbs@[j]).successors@.contains(
                    (#[trigger] bbs@[i]).addr,
                ) <==> r@[i]@.contains(bbs@[j].addr)),
            forall|i: int, x: u64| 0 <= i < bbs@.len() && (#[trigger] r@[i]@.contains(x)) ==> exists|j: int|
                0 <= j < bbs@.len() && (#[trigger] bbs@[j]).addr == x,
    {
        let mut r: Vec<Vec<u64>> = Vec::new();
        let mut i: usize = 0;
        while i < bbs.len()
            invariant
                forall|i: int, j: int|
                    0 <= i < bbs@.len() && 0 <= j < bbs@.len() && (#[trigger] bbs@[i]).addr == (
                    #[trigger] bbs@[j]).addr ==> i == j,
                i <= bbs@.len(),
                r@.len() == i,
                forall|i2: int, j: int|
                    0 <= i2 < i && 0 <= j < bbs@.len() ==> ((#[trigger] bbs@[j]).successors@.contains(
                        (#[trigger] bbs@[i2]).addr,
                    ) <==> r@[i2]@.contains(bbs@[j].addr)),
                forall|i2: int, x: u64| 0 <= i2 < i && (#[trigger] r@[i2]@.contains(x)) ==> exists|j: int|
                    0 <= j < bbs@.len() && (#[trigger] bbs@[j]).addr == x,
            decreases bbs@.len() - i,
        {
            let target = bbs[i].addr;
            let mut preds: Vec<u64> = Vec::new();
            let mut j: usize = 0;
            while j < bbs.len()
                invariant
                    i < bbs@.len(),
                    target == bbs@[i as int].addr,
                    j <= bbs@.len(),
                    forall|j2: int| 0 <= j2 < j ==> (bbs@[j2].successors@.contains(target) ==> preds@.contains(#[trigger] bbs@[j2].addr)),
                    forall|x: u64| #[trigger] preds@.contains(x) ==> exists|j2: int|
                        0 <= j2 < j && (#[trigger] bbs@[j2]).addr == x && bbs@[j2].successors@.contains(target),
                decreases bbs@.len() - j,
            {
                let succs = &bbs[j].successors;
                let mut k: usize = 0;
                let mut hit = false;
                while k < succs.len()
                    invariant
                        k <= succs@.len(),
                        hit == succs@.take(k as int).contains(target),
                    decreases succs@.len() - k,
                {
                    proof {
                        lemma_take_push_contains(succs@, k as int, target);
                    }
                    if succs[k] == target {
                        hit = true;
                    }
                    k = k + 1;
                }
                assert(succs@.take(k as int) =~= succs@);
                let ghost before = preds@;
                if hit {
                    preds.push(bbs[j].addr);
                    proof {
                        assert(preds@[preds@.len() - 1] == bbs@[j as int].addr);
                    }
                }
                proof {
                    assert forall|x: u64| #[trigger] preds@.contains(x) implies exists|j2: int|
                        0 <= j2 < j + 1 && (#[trigger] bbs@[j2]).addr == x && bbs@[j2].successors@.contains(target) by {
                        if before.contains(x) {
                            let j2 = choose|j2: int| 0 <= j2 < j && (#[trigger] bbs@[j2]).addr == x && bbs@[j2].successors@.contains(target);
                        } else {
                            let z = choose|z: int| 0 <= z < preds@.len() && #[trigger] preds@[z] == x;
                            if z < before.len() {
                                assert(before[z] == x);
                            }
                        }
                    }
                    assert forall|j2: int| 0 <= j2 < j + 1 && bbs@[j2].successors@.contains(target) implies preds@.contains(#[trigger] bbs@[j2].addr) by {
                        if j2 < j && bbs@[j2].successors@.contains(target) {
                            let z = choose|z: int| 0 <= z < before.len() && #[trigger] before[z] == bbs@[j2].addr;
                            assert(preds@[z] == before[z]);
                        }
                    }
                }
                j = j + 1;
            }
            let ghost r0 = r@;
            r.push(preds);
            proof {
                assert forall|i2: int, j2: int|
                    0 <= i2 < i + 1 && 0 <= j2 < bbs@.len() implies ((#[trigger] bbs@[j2]).successors@.contains(
                        (#[trigger] bbs@[i2]).addr,
                    ) <==> r@[i2]@.contains(bbs@[j2].addr)) by {
                    if i2 == i {
                        if r@[i2]@.contains(bbs@[j2].addr) {
                            let j3 = choose|j3: int| 0 <= j3 < bbs@.len() && (#[trigger] bbs@[j3]).addr == bbs@[j2].addr && bbs@[j3].successors@.contains(target);
                            assert(j3 == j2);
                        }
                    } else {
                        assert(r@[i2] == r0[i2]);
                    }
                }
            }
            i = i + 1;
        }
        r
    }

    /// The UTF-8 text at `rva`: of the mapped bytes there (at most `MAX_STRING_LENGTH`),
    /// those before the first NUL. `InvalidAddress` when `rva` is not mapped;
    /// `ParseError` when the bytes are not valid UTF-8.
    pub fn read_utf8(&self, rva: u64) -> (r: Result<String, WorkspaceError>)
        requires
            self.wf(),
            rva + MAX_STRING_LENGTH <= u64::MAX,
        ensures
            ({
                let v = self.module_of().address_space@;
                let n = crate::analysis::readable_len(v, rva as int, MAX_STRING_LENGTH as nat);
                let text = before_nul(view_range(v, rva as int, rva + n));
                &&& (r matches Err(e) ==> (e == WorkspaceError::InvalidAddress <==> n == 0))
                &&& (r matches Err(e) ==> (e == WorkspaceError::ParseError <==> (n != 0
                    && utf8_decoded(text) is None)))
                &&& (r is Ok <==> (n != 0 && utf8_decoded(text) is Some))
                &&& (r matches Ok(s) ==> utf8_decoded(text) == Some(s@))
            }),
    {
        let bytes = crate::analysis::read_window(self, rva, MAX_STRING_LENGTH);
        if bytes.len() == 0 {
            return Err(WorkspaceError::InvalidAddress);
        }
        let text = cut_at_nul(bytes.as_slice());
        match string_from_utf8(text) {
            Some(s) => Ok(s),
            None => Err(WorkspaceError::ParseError),
        }
    }

    /// The function entries, in the order they were made.
    pub fn get_functions(&self) -> (r: &Vec<u64>)
        ensures
            r@ == self.functions_view(),
    {
        &self.functions
    }

    /// The references from `a`, in the order they were added.
    pub fn get_xrefs_from(&self, a: u64) -> (r: Result<&Vec<Xref>, WorkspaceError>)
        requires
            self.wf(),
        ensures
            r is Ok <==> a < self.capacity(),
            r matches Ok(v) ==> v@ == self.xrefs_from_view(a as int),
    {
        if a >= self.insn_lengths.len() as u64 {
            return Err(WorkspaceError::InvalidAddress);
        }
        Ok(self.xrefs.xrefs_from(a))
    }

    /// The references to `a`, in the order they were added.
    pub fn get_xrefs_to(&self, a: u64) -> (r: Result<&Vec<Xref>, WorkspaceError>)
        requires
            self.wf(),
        ensures
            r is Ok <==> a < self.capacity(),
            r matches Ok(v) ==> v@ == self.xrefs_to_view(a as int),
    {
        if a >= self.insn_lengths.len() as u64 {
            return Err(WorkspaceError::InvalidAddress);
        }
        Ok(self.xrefs.xrefs_to(a))
    }
}

/// Longest string that `read_utf8` reads, in bytes.
pub const MAX_STRING_LENGTH: usize = 0x1000;

/// The bytes of `b` before its first NUL; all of `b` when it holds none.
pub open spec fn before_nul(b: Seq<u8>) -> Seq<u8>
    decreases b.len(),
{
    if b.len() == 0 {
        b
    } else if b[0] == 0 {
        Seq::empty()
    } else {
        seq![b[0]] + before_nul(b.drop_first())
    }
}

/// The bytes of `b` before its first NUL.
pub fn cut_at_nul(b: &[u8]) -> (r: Vec<u8>)
    ensures
        r@ == before_nul(b@),
{
    let mut i: usize = 0;
    assert(b@.skip(0) =~= b@);
    assert(b@.take(0) + before_nul(b@) =~= before_nul(b@));
    while i < b.len() && b[i] != 0
        invariant
            i <= b@.len(),
            forall|j: int| 0 <= j < i ==> b@[j] != 0,
            before_nul(b@) == b@.take(i as int) + before_nul(b@.skip(i as int)),
        decreases b@.len() - i,
    {
        proof {
            let rest = b@.skip(i as int);
            assert(rest.drop_first() =~= b@.skip(i + 1));
            assert(b@.take(i + 1) =~= b@.take(i as int) + seq![rest[0]]);
            assert(b@.take(i as int) + (seq![rest[0]] + before_nul(rest.drop_first())) =~= b@.take(i + 1)
                + before_nul(b@.skip(i + 1)));
        }
        i = i + 1;
    }
    proof {
        assert(before_nul(b@.skip(i as int)) =~= Seq::<u8>::empty());
        assert(b@.take(i as int) + Seq::<u8>::empty() =~= b@.take(i as int));
    }
    crate::flirt::slice_of(b, 0, i)
}

/// What the bytes `b` decode to as UTF-8, if they are valid UTF-8.
pub uninterp spec fn utf8_decoded(b: Seq<u8>) -> Option<Seq<char>>;

/// Relies on std's `String::from_utf8`: the string the bytes encode, when they are valid
/// UTF-8.
#[verifier::external_body]
fn string_from_utf8(bytes: Vec<u8>) -> (r: Option<String>)
    ensures
        r matches Some(s) ==> utf8_decoded(bytes@) == Some(s@),
        r is None ==> utf8_decoded(bytes@) is None,
{
    String::from_utf8(bytes).ok()
}

/// The little-endian value of two bytes.
pub open spec fn le_u16(b: Seq<u8>) -> u16 {
    (b[0] + 256 * b[1]) as u16
}

/// The little-endian value of four bytes.
pub open spec fn le_u32(b: Seq<u8>) -> u32 {
    (b[0] + 256 * b[1] + 65536 * b[2] + 16777216 * b[3]) as u32
}

/// The little-endian value of eight bytes.
pub open spec fn le_u64(b: Seq<u8>) -> u64 {
    (le_u32(b.subrange(0, 4)) + 4294967296 * le_u32(b.subrange(4, 8))) as u64
}

/// The little-endian value of four or eight bytes.
pub open spec fn le_value(b: Seq<u8>) -> u64 {
    if b.len() == 4 {
        le_u32(b) as u64
    } else {
        le_u64(b)
    }
}

/// The little-endian value of `b[0..2]`.
pub fn u16_from_le(b: &[u8]) -> (r: u16)
    requires
        b@.len() == 2,
    ensures
        r == le_u16(b@),
{
    b[0] as u16 + (b[1] as u16) * 256
}

/// The little-endian value of `b[0..4]`.
pub fn u32_from_le(b: &[u8]) -> (r: u32)
    requires
        b@.len() == 4,
    ensures
        r == le_u32(b@),
{
    b[0] as u32 + (b[1] as u32) * 256 + (b[2] as u32) * 65536 + (b[3] as u32) * 16777216
}

/// The little-endian value of `b[0..8]`.
pub fn u64_from_le(b: &[u8]) -> (r: u64)
    requires
        b@.len() == 8,
    ensures
        r == le_u64(b@),
{
    let lo = b[0] as u64 + (b[1] as u64) * 256 + (b[2] as u64) * 65536 + (b[3] as u64) * 16777216;
    let hi = b[4] as u64 + (b[5] as u64) * 256 + (b[6] as u64) * 65536 + (b[7] as u64) * 16777216;
    assert(lo == le_u32(b@.subrange(0, 4)));
    assert(hi == le_u32(b@.subrange(4, 8)));
    lo + hi * 4294967296
}

/// Every instruction recorded in `ws` has the length that `decoder` gives its address.
pub open spec fn follows_decoder(ws: Workspace, decoder: spec_fn(int) -> Option<InsnFlow>) -> bool {
    forall|a: int|
        ws.insn_len(a) != 0 ==> (decoder(a) matches Some(f) && f.length == #[trigger] ws.insn_len(a))
}

/// Recording at `rva` what `decoder` gives for it, as `record_insn` does, keeps every
/// recorded length the decoder's: the length found at an address does not depend on
/// the order in which addresses are visited.
pub proof fn lemma_record_follows_decoder(
    before: Workspace,
    after: Workspace,
    rva: int,
    decoder: spec_fn(int) -> Option<InsnFlow>,
)
    requires
        follows_decoder(before, decoder),
        forall|a: int| a != rva ==> #[trigger] after.insn_len(a) == before.insn_len(a),
        after.insn_len(rva) == before.insn_len(rva) || (before.insn_len(rva) == 0 && (decoder(
            rva,
        ) matches Some(f) && after.insn_len(rva) == f.length)),
    ensures
        follows_decoder(after, decoder),
{
    assert forall|a: int| after.insn_len(a) != 0 implies (decoder(a) matches Some(f) && f.length
        == #[trigger] after.insn_len(a)) by {
        if a != rva || after.insn_len(rva) == before.insn_len(rva) {
            assert(before.insn_len(a) == after.insn_len(a));
        }
    }
}

/// `b` is where control or data may go from `a`, as `decoder` classifies `a`, and lies in
/// executable code.
pub open spec fn successor(ws: Workspace, decoder: spec_fn(int) -> Option<InsnFlow>, a: int, b: int) -> bool {
    &&& decoder(a) is Some
    &&& ws.is_exec(b)
    &&& exists|k: int|
        0 <= k < flow_xrefs(a, decoder(a).unwrap()).len() && #[trigger] flow_xrefs(
            a,
            decoder(a).unwrap(),
        )[k].1 == b
}

/// `a` is reached from an executable seed in at most `n` steps along successors.
pub open spec fn reaches(
    ws: Workspace,
    decoder: spec_fn(int) -> Option<InsnFlow>,
    seeds: Set<int>,
    a: int,
    n: nat,
) -> bool
    decreases n,
{
    if n == 0 {
        seeds.contains(a) && ws.is_exec(a)
    } else {
        reaches(ws, decoder, seeds, a, (n - 1) as nat) || exists|b: int|
            reaches(ws, decoder, seeds, b, (n - 1) as nat) && #[trigger] successor(ws, decoder, b, a)
    }
}

/// Disassembly from `seeds` with `decoder` has run to its fixed point in `ws`: each
/// recorded length is the decoder's, each recorded address is reached from a seed, and
/// each executable seed and each successor of a recorded instruction is recorded too,
/// unless the decoder rejects it.
pub open spec fn complete_for(ws: Workspace, decoder: spec_fn(int) -> Option<InsnFlow>, seeds: Set<int>) -> bool {
    &&& follows_decoder(ws, decoder)
    &&& forall|a: int| #[trigger] ws.insn_len(a) != 0 ==> exists|n: nat| reaches(ws, decoder, seeds, a, n)
    &&& forall|a: int| seeds.contains(a) && ws.is_exec(a) ==> (#[trigger] ws.insn_len(a) != 0 || decoder(a) is None)
    &&& forall|a: int, b: int|
        ws.insn_len(a) != 0 && #[trigger] successor(ws, decoder, a, b) ==> (ws.insn_len(b) != 0 || decoder(b) is None)
}

proof fn lemma_reaches_recorded(
    ws: Workspace,
    decoder: spec_fn(int) -> Option<InsnFlow>,
    seeds: Set<int>,
    a: int,
    n: nat,
)
    requires
        complete_for(ws, decoder, seeds),
        reaches(ws, decoder, seeds, a, n),
    ensures
        ws.insn_len(a) != 0 || decoder(a) is None,
    decreases n,
{
    if n > 0 {
        if reaches(ws, decoder, seeds, a, (n - 1) as nat) {
            lemma_reaches_recorded(ws, decoder, seeds, a, (n - 1) as nat);
        } else {
            let b = choose|b: int| reaches(ws, decoder, seeds, b, (n - 1) as nat) && #[trigger] successor(ws, decoder, b, a);
            lemma_reaches_recorded(ws, decoder, seeds, b, (n - 1) as nat);
            assert(ws.insn_len(b) != 0);
        }
    }
}

proof fn lemma_reaches_same_code(
    w1: Workspace,
    w2: Workspace,
    decoder: spec_fn(int) -> Option<InsnFlow>,
    seeds: Set<int>,
    a: int,
    n: nat,
)
    requires
        forall|x: int| #[trigger] w1.is_exec(x) == w2.is_exec(x),
        reaches(w1, decoder, seeds, a, n),
    ensures
        reaches(w2, decoder, seeds, a, n),
    decreases n,
{
    if n > 0 {
        if reaches(w1, decoder, seeds, a, (n - 1) as nat) {
            lemma_reaches_same_code(w1, w2, decoder, seeds, a, (n - 1) as nat);
        } else {
            let b = choose|b: int| reaches(w1, decoder, seeds, b, (n - 1) as nat) && #[trigger] successor(w1, decoder, b, a);
            lemma_reaches_same_code(w1, w2, decoder, seeds, b, (n - 1) as nat);
            assert(successor(w2, decoder, b, a));
        }
    }
}

/// Two complete disassemblies of the same code from the same seeds with the same decoder
/// record the same instructions with the same lengths, whatever order the seeds and the
/// worklist were taken in.
pub proof fn lemma_disassembly_order_independent(
    w1: Workspace,
    w2: Workspace,
    decoder: spec_fn(int) -> Option<InsnFlow>,
    seeds: Set<int>,
)
    requires
        forall|x: int| #[trigger] w1.is_exec(x) == w2.is_exec(x),
        complete_for(w1, decoder, seeds),
        complete_for(w2, decoder, seeds),
    ensures
        forall|a: int| #[trigger] w1.insn_len(a) == w2.insn_len(a),
{
    assert forall|a: int| #[trigger] w1.insn_len(a) == w2.insn_len(a) by {
        if w1.insn_len(a) != 0 {
            let n = choose|n: nat| reaches(w1, decoder, seeds, a, n);
            lemma_reaches_same_code(w1, w2, decoder, seeds, a, n);
            lemma_reaches_recorded(w2, decoder, seeds, a, n);
        }
        if w2.insn_len(a) != 0 {
            let n = choose|n: nat| reaches(w2, decoder, seeds, a, n);
            lemma_reaches_same_code(w2, w1, decoder, seeds, a, n);
            lemma_reaches_recorded(w1, decoder, seeds, a, n);
        }
    }
}

/// What a well-formed workspace guarantees of its references and its code: every
/// reference starts at a recorded instruction and ends in executable code, a fall-through
/// or conditional move ends right after its instruction, executable code is what the
/// executable sections cover below the capacity, and each reference stands in the list
/// of its source exactly when it stands in the list of its destination.
pub proof fn lemma_workspace_facts(ws: &Workspace)
    requires
        ws.wf(),
    ensures
        forall|x: Xref|
            #[trigger] ws.has_xref(x) ==> {
                &&& ws.insn_len(x.src as int) != 0
                &&& ws.is_exec(x.dst as int)
                &&& (x.typ == XrefType::Fallthrough || x.typ == XrefType::ConditionalMove) ==> x.dst
                    == x.src + ws.insn_len(x.src as int)
            },
        forall|x: Xref|
            #[trigger] ws.has_xref(x) <==> (x.src < ws.capacity() && ws.xrefs_from_view(x.src as int).contains(x)),
        forall|x: Xref|
            x.src < ws.capacity() && x.dst < ws.capacity() ==> (#[trigger] ws.xrefs_from_view(x.src as int).contains(x)
                <==> ws.xrefs_to_view(x.dst as int).contains(x)),
        forall|a: int|
            #[trigger] ws.is_exec(a) <==> (0 <= a < ws.capacity() && in_executable(ws.module_of().sections@, a)),
        forall|a: int| #[trigger] ws.insn_len(a) != 0 ==> 0 <= a < ws.capacity(),
        forall|a: int| 0 <= a < ws.capacity() ==> crate::xref::no_dups(#[trigger] ws.xrefs_from_view(a)),
        forall|a: int| 0 <= a < ws.capacity() ==> crate::xref::no_dups(#[trigger] ws.xrefs_to_view(a)),
        forall|a: int, k: int|
            0 <= a < ws.capacity() && 0 <= k < ws.xrefs_from_view(a).len() ==> (#[trigger] ws.xrefs_from_view(a)[k]).src == a,
        forall|a: int, k: int|
            0 <= a < ws.capacity() && 0 <= k < ws.xrefs_to_view(a).len() ==> (#[trigger] ws.xrefs_to_view(a)[k]).dst == a,
{
    crate::xref::lemma_lists_once(&ws.xrefs);
    assert forall|x: Xref|
        x.src < ws.capacity() && x.dst < ws.capacity() implies (#[trigger] ws.xrefs_from_view(x.src as int).contains(x)
            <==> ws.xrefs_to_view(x.dst as int).contains(x)) by {
        crate::xref::lemma_xref_symmetry(&ws.xrefs, x);
    }
}

/// A recorded instruction lies below the capacity, is at most `MAX_INSN_LENGTH` long,
/// and its end fits in a `usize`.
pub proof fn lemma_insn_bounds(ws: &Workspace, a: int)
    requires
        ws.wf(),
        ws.insn_len(a) != 0,
    ensures
        0 <= a < ws.capacity(),
        ws.insn_len(a) <= MAX_INSN_LENGTH,
        ws.capacity() + MAX_INSN_LENGTH < usize::MAX,
{
}

proof fn lemma_queued_none(w: Workspace, s: Seq<(XrefType, int)>)
    requires
        s.len() == 0,
    ensures
        w.queued(s) == Seq::<u64>::empty(),
{
}

proof fn lemma_queued_one(w: Workspace, s: Seq<(XrefType, int)>)
    requires
        s.len() == 1,
    ensures
        w.queued(s) == if w.needs_work(s[0].1) {
            seq![s[0].1 as u64]
        } else {
            Seq::<u64>::empty()
        },
{
    assert(s.drop_last().len() == 0);
    assert(w.queued(s.drop_last()) == Seq::<u64>::empty());
    assert(w.queued(s) =~= (if w.needs_work(s[0].1) {
        seq![s[0].1 as u64]
    } else {
        Seq::<u64>::empty()
    }));
}

proof fn lemma_queued_two(w: Workspace, s: Seq<(XrefType, int)>)
    requires
        s.len() == 2,
    ensures
        w.queued(s) == (if w.needs_work(s[0].1) {
            seq![s[0].1 as u64]
        } else {
            Seq::<u64>::empty()
        }) + (if w.needs_work(s[1].1) {
            seq![s[1].1 as u64]
        } else {
            Seq::<u64>::empty()
        }),
{
    lemma_queued_one(w, s.drop_last());
}


pub proof fn lemma_take_push_contains(s: Seq<u64>, i: int, v: u64)
    requires
        0 <= i < s.len(),
    ensures
        s.take(i + 1).contains(v) <==> (s.take(i).contains(v) || s[i] == v),
{
    assert(s.take(i + 1) =~= s.take(i).push(s[i]));
    if s.take(i).contains(v) {
        let z = choose|z: int| 0 <= z < i && #[trigger] s.take(i)[z] == v;
        assert(s.take(i + 1)[z] == v);
    }
    if s[i] == v {
        assert(s.take(i + 1)[i] == v);
    }
    if s.take(i + 1).contains(v) && s[i] != v {
        let z = choose|z: int| 0 <= z < i + 1 && #[trigger] s.take(i + 1)[z] == v;
        assert(s.take(i)[z] == v);
    }
}

} // verus!
