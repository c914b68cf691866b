//! Building a workspace from the bytes of a module: which loader to use, whether to
//! analyse, whether analyzer failures are fatal, and where FLIRT signatures live.
use crate::analysis::{has_symbol, EntryPointAnalyzer, ExportsAnalyzer, FlirtConfig};
use crate::aspace::{view_at, view_mapped, view_range, PAGE_SIZE};
use crate::loader::{
    load_shellcode, section_contains, section_executable, Arch, FileFormat, PERM_R, PERM_W, PERM_X,
};
use crate::pe::{
    load_pe, mem_size, parse_pe_exports, pe_headers_of, pe_loadable, pe_sections_of, perms_of,
    section_matches,
};
use crate::workspace::{Workspace, WorkspaceError};
use vstd::prelude::*;

verus! {

/// A loader chosen by the caller instead of the first one that accepts the bytes.
#[derive(Debug, Clone, Copy, PartialEq, Eq, Structural)]
pub enum LoaderChoice {
    Shellcode(Arch),
    Pe,
}

/// Analyzers that need disassembly to have run first; the caller runs them, in order,
/// once the worklist is drained.
#[derive(Debug, Clone, Copy, PartialEq, Eq, Structural)]
pub enum PendingAnalyzer {
    Relocations,
    Flirt,
}

/// Settings for building a workspace.
pub struct WorkspaceBuilder {
    pub filename: String,
    pub buf: Vec<u8>,
    pub config: FlirtConfig,
    pub loader: Option<LoaderChoice>,
    pub should_analyze: bool,
    /// When set, an analyzer's failure fails the build.
    pub strict_mode: bool,
}

impl Workspace {
    /// A builder for the module with contents `buf`, with default settings: the loader
    /// picked from the bytes, analysis on, strict mode off.
    pub fn from_bytes(filename: String, buf: Vec<u8>, config: FlirtConfig) -> (r: WorkspaceBuilder)
        ensures
            r.buf == buf,
            r.loader is None,
            r.should_analyze,
            !r.strict_mode,
    {
        WorkspaceBuilder { filename, buf, config, loader: None, should_analyze: true, strict_mode: false }
    }
}

impl WorkspaceBuilder {
    /// Use `loader` instead of the one picked from the bytes.
    pub fn with_loader(self, loader: LoaderChoice) -> (r: WorkspaceBuilder)
        ensures
            r.loader == Some(loader),
            r.buf == self.buf,
            r.should_analyze == self.should_analyze,
            r.strict_mode == self.strict_mode,
    {
        WorkspaceBuilder { loader: Some(loader), ..self }
    }

    /// Load without analysing.
    pub fn disable_analysis(self) -> (r: WorkspaceBuilder)
        ensures
            !r.should_analyze,
            r.loader == self.loader,
            r.buf == self.buf,
            r.strict_mode == self.strict_mode,
    {
        WorkspaceBuilder { should_analyze: false, ..self }
    }

    /// Make analyzer failures fail the build.
    pub fn enable_strict_mode(self) -> (r: WorkspaceBuilder)
        ensures
            r.strict_mode,
            r.loader == self.loader,
            r.buf == self.buf,
            r.should_analyze == self.should_analyze,
    {
        WorkspaceBuilder { strict_mode: true, ..self }
    }

    /// Use `config` for the FLIRT analyzer.
    pub fn with_config(self, config: FlirtConfig) -> (r: WorkspaceBuilder)
        ensures
            r.loader == self.loader,
            r.buf == self.buf,
            r.should_analyze == self.should_analyze,
            r.strict_mode == self.strict_mode,
    {
        WorkspaceBuilder { config, ..self }
    }

    /// The builder loads the bytes as a PE: by choice, or, with no choice, when goblin
    /// parses their headers.
    pub open spec fn chooses_pe(&self) -> bool {
        match self.loader {
            Some(LoaderChoice::Pe) => true,
            Some(LoaderChoice::Shellcode(_)) => false,
            None => pe_headers_of(self.buf@) is Some,
        }
    }

    /// Load the module and run the analyzers that need no disassembly: a function at
    /// offset zero for shellcode; the entry point and the exports for a PE. Returns the
    /// workspace, its format, and the analyzers still to run after disassembly.
    /// `NotSupported` when the loader refuses the bytes; in strict mode, the error of the
    /// first analyzer that fails (`InvalidAddress` for an entry point outside code);
    /// otherwise a failing analyzer is passed over.
    pub fn load(self) -> (r: Result<(Workspace, FileFormat, Vec<PendingAnalyzer>), WorkspaceError>)
        ensures
            self.chooses_pe() ==> (r is Ok <==> (pe_loadable(self.buf@) && !(self.strict_mode
                && self.should_analyze && !pe_entry_in_code(self.buf@)))),
            !self.chooses_pe() ==> (r is Ok <==> (self.buf@.len() < u32::MAX - PAGE_SIZE && !(
            self.strict_mode && self.should_analyze && self.buf@.len() == 0))),
            r matches Err(e) ==> (e == WorkspaceError::NotSupported || e == WorkspaceError::InvalidAddress),
            self.chooses_pe() && !pe_loadable(self.buf@) ==> r == Err::<(Workspace, FileFormat, Vec<PendingAnalyzer>), WorkspaceError>(WorkspaceError::NotSupported),
            self.chooses_pe() && pe_loadable(self.buf@) && self.strict_mode && self.should_analyze && !pe_entry_in_code(self.buf@)
                ==> r == Err::<(Workspace, FileFormat, Vec<PendingAnalyzer>), WorkspaceError>(WorkspaceError::InvalidAddress),
            !self.chooses_pe() && self.buf@.len() >= u32::MAX - PAGE_SIZE ==> r == Err::<(Workspace, FileFormat, Vec<PendingAnalyzer>), WorkspaceError>(WorkspaceError::NotSupported),
            !self.chooses_pe() && self.buf@.len() == 0 && self.strict_mode && self.should_analyze
                ==> r == Err::<(Workspace, FileFormat, Vec<PendingAnalyzer>), WorkspaceError>(WorkspaceError::InvalidAddress),
            r matches Ok((ws, _, _)) ==> ws.wf(),
            r matches Ok((ws, _, _)) ==> forall|a: int| #[trigger] ws.insn_len(a) == 0,
            r matches Ok((ws, _, _)) ==> forall|x: crate::xref::Xref| !#[trigger] ws.has_xref(x),
            r matches Ok((ws, _, _)) ==> (self.chooses_pe() ==> {
                let h = pe_headers_of(self.buf@).unwrap();
                let secs = pe_sections_of(self.buf@).unwrap();
                &&& ws.module_of().base_address == h.image_base
                &&& ws.arch_of() == (if h.is_64 { Arch::X64 } else { Arch::X32 })
                &&& ws.module_of().sections@.len() == secs.len()
                &&& forall|i: int| 0 <= i < secs.len() ==> section_matches(#[trigger] ws.module_of().sections@[i], secs[i])
                &&& self.should_analyze && pe_entry_in_code(self.buf@) ==> ws.pending_view().contains(h.entry as u64)
            }),
            r matches Ok((_, f, _)) ==> (f == FileFormat::PE <==> self.chooses_pe()),
            r matches Ok((_, f, pending)) ==> (!self.should_analyze ==> pending@.len() == 0),
            r matches Ok((_, f, pending)) ==> (f == FileFormat::Raw ==> pending@.len() == 0),
            r matches Ok((ws, _, _)) ==> (self.chooses_pe() && self.should_analyze && pe_entry_in_code(
                self.buf@,
            ) ==> ws.functions_view().contains(pe_headers_of(self.buf@).unwrap().entry as u64)),
            r matches Ok((ws, _, _)) ==> (!self.chooses_pe() && self.should_analyze && self.buf@.len()
                > 0 ==> ws.functions_view().contains(0)),
            r matches Ok((ws, _, _)) ==> (!self.chooses_pe() ==> {
                &&& ws.module_of().base_address == 0
                &&& ws.arch_of() == (match self.loader {
                    Some(LoaderChoice::Shellcode(a)) => a,
                    _ => Arch::X32,
                })
                &&& view_range(ws.module_of().address_space@, 0, self.buf@.len() as int) == self.buf@
                &&& forall|a: int|
                    a >= crate::loader::page_round(self.buf@.len() as int) ==> #[trigger] view_at(
                        ws.module_of().address_space@,
                        a,
                    ) is None
                &&& forall|a: int| #[trigger] ws.is_exec(a) <==> 0 <= a < self.buf@.len()
                &&& view_mapped(ws.module_of().address_space@, 0, self.buf@.len() as int)
                &&& ws.module_of().sections@.len() == 1
                &&& ws.module_of().sections@[0].addr == 0
                &&& ws.module_of().sections@[0].size == self.buf@.len()
                &&& ws.module_of().sections@[0].perms.0 == PERM_R | PERM_W | PERM_X
                &&& ws.module_of().sections@[0].name@ == seq![0x72u8, 0x61u8, 0x77u8]
                &&& ws.pending_view() == (if self.should_analyze && self.buf@.len() > 0 { seq![0u64] } else { Seq::<u64>::empty() })
                &&& ws.functions_view() == (if self.should_analyze && self.buf@.len() > 0 { seq![0u64] } else { Seq::<u64>::empty() })
                &&& ws.symbols_view().len() == 0
            }),
    {
        let use_pe = match self.loader {
            Some(LoaderChoice::Pe) => true,
            Some(LoaderChoice::Shellcode(_)) => false,
            None => crate::pe::parse_pe_headers(self.buf.as_slice()).is_some(),
        };
        let mut pending: Vec<PendingAnalyzer> = Vec::new();
        if use_pe {
            let (module, arch, hdrs) = match load_pe(self.buf.as_slice()) {
                Ok(t) => t,
                Err(_) => return Err(WorkspaceError::NotSupported),
            };
            let ghost m0 = module;
            let mut ws = match Workspace::new(arch, module) {
                Ok(ws) => ws,
                Err(e) => return Err(e),
            };
            proof {
                crate::workspace::lemma_workspace_facts(&ws);
                crate::loader::lemma_max_end(m0.sections@, 0);
                let e = hdrs.entry as int;
                let secs = pe_sections_of(self.buf@).unwrap();
                if pe_entry_in_code(self.buf@) {
                    let i = choose|i: int| 0 <= i < secs.len() && perms_of(#[trigger] secs[i].characteristics) & PERM_X != 0
                        && secs[i].virtual_address <= e < secs[i].virtual_address + mem_size(secs[i]);
                    assert(section_matches(m0.sections@[i], secs[i]));
                    assert(section_executable(m0.sections@[i]) && section_contains(m0.sections@[i], e));
                    assert(ws.is_exec(e));
                }
                if ws.is_exec(e) {
                    let i = choose|i: int|
                        0 <= i < m0.sections@.len() && section_executable(#[trigger] m0.sections@[i]) && section_contains(
                            m0.sections@[i],
                            e,
                        );
                    assert(section_matches(m0.sections@[i], secs[i]));
                    assert(pe_entry_in_code(self.buf@));
                }
                assert(!has_symbol(ws, hdrs.entry as u64));
            }
            if self.should_analyze {
                let res = EntryPointAnalyzer::new().analyze(&mut ws, hdrs);
                match res {
                    Err(e) => {
                        if self.strict_mode {
                            return Err(e);
                        }
                    },
                    Ok(()) => {
                        assert(ws.pending_view()[ws.pending_view().len() - 1] == hdrs.entry as u64);
                        assert(ws.pending_view().contains(hdrs.entry as u64));
                    },
                }
                if let Some(exports) = parse_pe_exports(self.buf.as_slice()) {
                    ExportsAnalyzer::new().analyze(&mut ws, &exports);
                }
                pending.push(PendingAnalyzer::Relocations);
                pending.push(PendingAnalyzer::Flirt);
            }
            proof {
                crate::workspace::lemma_workspace_facts(&ws);
                assert(hdrs == pe_headers_of(self.buf@).unwrap());
            }
            Ok((ws, FileFormat::PE, pending))
        } else {
            let arch = match self.loader {
                Some(LoaderChoice::Shellcode(a)) => a,
                _ => Arch::X32,
            };
            if self.buf.len() >= u32::MAX as usize - PAGE_SIZE {
                return Err(WorkspaceError::NotSupported);
            }
            let module = load_shellcode(self.buf.as_slice());
            let ghost m0 = module;
            proof {
                crate::loader::lemma_max_end(m0.sections@, self.buf@.len() as int);
                assert((PERM_R | PERM_W | PERM_X) & PERM_X != 0) by (bit_vector);
            }
            let mut ws = match Workspace::new(arch, module) {
                Ok(ws) => ws,
                Err(e) => return Err(e),
            };
            proof {
                crate::workspace::lemma_workspace_facts(&ws);
                assert forall|a: int| #[trigger] ws.is_exec(a) <==> 0 <= a < self.buf@.len() by {
                    if 0 <= a < self.buf@.len() {
                        assert(section_executable(m0.sections@[0]) && section_contains(m0.sections@[0], a));
                    }
                }
            }
            if self.should_analyze {
                match ws.make_function(0) {
                    Err(e) => {
                        if self.strict_mode {
                            return Err(e);
                        }
                    },
                    Ok(()) => {},
                }
            }
            Ok((ws, FileFormat::Raw, pending))
        }
    }
}

/// The entry point of the PE in `b` lies in an executable section.
pub open spec fn pe_entry_in_code(b: Seq<u8>) -> bool {
    let e = pe_headers_of(b).unwrap().entry as int;
    let secs = pe_sections_of(b).unwrap();
    exists|i: int|
        0 <= i < secs.len() && perms_of(#[trigger] secs[i].characteristics) & PERM_X != 0
            && secs[i].virtual_address <= e < secs[i].virtual_address + mem_size(secs[i])
}

} // verus!
