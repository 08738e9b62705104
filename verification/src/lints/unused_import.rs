//! Warns of imports that no name of their module uses.
use vstd::prelude::*;

use crate::common::{Span, Spanned};
use crate::error::{CompileError, Diagnostic, DiagnosticKind, Diagnostics};
use crate::lints::Lint;
use crate::stages::semantic::context::{HIRContext, SymbolId, SymbolKind};
use crate::stages::semantic::hir::{HIRInstruction, HIRModule, HIRProgram, HIRStruct, HIRWord};
use crate::text::{chars_of, copy_string, join_seq};

verus! {

/// An imported module, by name, and where it was imported.
#[derive(Debug)]
pub struct Import {
    pub name: String,
    pub span: Span,
}

/// The imports of each module seen so far that no name has used yet.
#[derive(Debug)]
pub struct UnusedImport {
    pub imports: Vec<Vec<Import>>,
}

impl Default for UnusedImport {
    fn default() -> (r: Self)
        ensures
            r.imports@.len() == 0,
    {
        UnusedImport { imports: Vec::new() }
    }
}

/// A name uses an import when it is the import's name, or begins with it
/// and a dot.
pub open spec fn uses(name: Seq<char>, import: Seq<char>) -> bool {
    name == import || (import.len() < name.len() && name.subrange(0, import.len() as int) == import
        && name[import.len() as int] == '.')
}

/// The imports a name does not use, in order.
pub open spec fn unused_by(imports: Seq<Import>, name: Seq<char>) -> Seq<Import>
    decreases imports.len(),
{
    if imports.len() == 0 {
        Seq::empty()
    } else if uses(name, imports.last().name@) {
        unused_by(imports.drop_last(), name)
    } else {
        unused_by(imports.drop_last(), name).push(imports.last())
    }
}

/// The modules a module imports, by name and import span, in order; an
/// import of something that is not a module is left out.
pub open spec fn module_imports(ctx: &HIRContext, ids: Seq<Spanned<SymbolId>>) -> Seq<(Seq<char>, Span)>
    decreases ids.len(),
{
    if ids.len() == 0 {
        Seq::empty()
    } else {
        let rest = module_imports(ctx, ids.drop_last());
        let id = ids.last().value;
        if id.0 < ctx.symbols@.len() {
            match ctx.symbols@[id.0 as int] {
                SymbolKind::Module { name } => rest.push((join_seq(name@, '.'), ids.last().span)),
                _ => rest,
            }
        } else {
            rest
        }
    }
}

/// Imports as names and spans.
pub open spec fn import_views(v: Seq<Import>) -> Seq<(Seq<char>, Span)> {
    v.map_values(|i: Import| (i.name@, i.span))
}

/// The warnings for imports, in order.
pub open spec fn list_warnings(list: Seq<Import>) -> Seq<Diagnostic> {
    list.map_values(
        |i: Import| Diagnostic { kind: DiagnosticKind::Warning, error: CompileError::UnusedImport { name: i.name, span: i.span } },
    )
}

/// The warnings for the imports of every module, module by module.
pub open spec fn import_warnings(lists: Seq<Vec<Import>>) -> Seq<Diagnostic>
    decreases lists.len(),
{
    if lists.len() == 0 {
        Seq::empty()
    } else {
        import_warnings(lists.drop_last()) + list_warnings(lists.last()@)
    }
}

proof fn lemma_import_warnings_are_warnings(lists: Seq<Vec<Import>>)
    ensures
        forall|i: int|
            0 <= i < import_warnings(lists).len() ==> (#[trigger] import_warnings(lists)[i]).kind
                == DiagnosticKind::Warning,
    decreases lists.len(),
{
    if lists.len() > 0 {
        lemma_import_warnings_are_warnings(lists.drop_last());
        let a = import_warnings(lists.drop_last());
        let b = list_warnings(lists.last()@);
        assert forall|i: int| 0 <= i < (a + b).len() implies (#[trigger] (a + b)[i]).kind == DiagnosticKind::Warning by {
            if i >= a.len() {
                assert((a + b)[i] == b[i - a.len()]);
            }
        }
    }
}

/// Whether the name uses the import.
pub fn uses_import(name: &str, import: &str) -> (r: bool)
    ensures
        r == uses(name@, import@),
{
    let n = chars_of(name);
    let m = chars_of(import);
    if m.len() > n.len() {
        return false;
    }
    let mut i: usize = 0;
    while i < m.len()
        invariant
            m@ == import@,
            n@ == name@,
            m@.len() <= n@.len(),
            i <= m@.len(),
            forall|j: int| 0 <= j < i ==> n@[j] == m@[j],
        decreases m@.len() - i,
    {
        if n[i] != m[i] {
            proof {
                assert(name@ != import@);
                assert(name@.subrange(0, import@.len() as int)[i as int] != import@[i as int]);
            }
            return false;
        }
        i += 1;
    }
    if m.len() == n.len() {
        assert(name@ =~= import@);
        true
    } else {
        assert(name@.subrange(0, import@.len() as int) =~= import@);
        assert(name@ != import@) by {
            assert(name@.len() != import@.len());
        }
        n[m.len()] == '.'
    }
}

impl Lint for UnusedImport {
    /// Adds the module's list of imported modules.
    open spec fn module_step(
        &self,
        ctx: &HIRContext,
        module: &HIRModule,
        before: Diagnostics,
        after: Self,
        after_diagnostics: Diagnostics,
    ) -> bool {
        &&& after.imports@.len() == self.imports@.len() + 1
        &&& forall|k: int| 0 <= k < self.imports@.len() ==> #[trigger] after.imports@[k] == self.imports@[k]
        &&& import_views(after.imports@.last()@) == module_imports(ctx, module.imports@)
        &&& after_diagnostics == before
    }

    /// Drops from the current module's list the imports the instruction's
    /// name uses.
    open spec fn instruction_step(
        &self,
        ctx: &HIRContext,
        instruction: &Spanned<HIRInstruction>,
        before: Diagnostics,
        after: Self,
        after_diagnostics: Diagnostics,
    ) -> bool {
        &&& after_diagnostics == before
        &&& after.imports@.len() == self.imports@.len()
        &&& forall|k: int| 0 <= k < self.imports@.len() - 1 ==> #[trigger] after.imports@[k] == self.imports@[k]
        &&& self.imports@.len() > 0 ==> match instruction.value {
            HIRInstruction::Call { name, .. } => after.imports@.last()@ == unused_by(self.imports@.last()@, name@),
            HIRInstruction::Pack { name, .. } => after.imports@.last()@ == unused_by(self.imports@.last()@, name@),
            HIRInstruction::Unpack { name, .. } => after.imports@.last()@ == unused_by(self.imports@.last()@, name@),
            HIRInstruction::GetField { name, .. } => after.imports@.last()@ == unused_by(self.imports@.last()@, name@),
            _ => after.imports@.last() == self.imports@.last(),
        }
    }

    /// Warns of every import left in the lists, module by module.
    open spec fn finish_step(
        &self,
        ctx: &HIRContext,
        program: &HIRProgram,
        before: Diagnostics,
        after: Self,
        after_diagnostics: Diagnostics,
    ) -> bool {
        &&& after == *self
        &&& after_diagnostics.errors@ == before.errors@ + import_warnings(self.imports@)
        &&& after_diagnostics.fatal == before.fatal
    }

    fn check_program(&mut self, ctx: &HIRContext, program: &HIRProgram, diagnostics: &mut Diagnostics) {
    }

    fn check_struct(&mut self, ctx: &HIRContext, hir_struct: &HIRStruct, diagnostics: &mut Diagnostics) {
    }

    fn check_word(&mut self, ctx: &HIRContext, word: &HIRWord, diagnostics: &mut Diagnostics) {
    }

    /// Starts the module's list: the modules it imports.
    fn check_module(&mut self, ctx: &HIRContext, module: &HIRModule, diagnostics: &mut Diagnostics)
        ensures
            final(self).imports@.len() == old(self).imports@.len() + 1,
            forall|k: int| 0 <= k < old(self).imports@.len() ==> #[trigger] final(self).imports@[k] == old(self).imports@[k],
            import_views(final(self).imports@.last()@) == module_imports(ctx, module.imports@),
            *final(diagnostics) == *old(diagnostics),
    {
        let mut list: Vec<Import> = Vec::new();
        let mut i: usize = 0;
        while i < module.imports.len()
            invariant
                i <= module.imports@.len(),
                import_views(list@) == module_imports(ctx, module.imports@.subrange(0, i as int)),
            decreases module.imports@.len() - i,
        {
            let ghost pre = module.imports@.subrange(0, i as int);
            let ghost next = module.imports@.subrange(0, i + 1);
            assert(next.drop_last() =~= pre);
            assert(next.last() == module.imports@[i as int]);
            let import = &module.imports[i];
            match ctx.get(import.value) {
                Some(SymbolKind::Module { name }) => {
                    let ghost before = list@;
                    list.push(Import { name: name.to_dotted_string(), span: import.span });
                    assert(import_views(list@) =~= import_views(before).push((list@.last().name@, import.span)));
                },
                _ => {},
            }
            i += 1;
        }
        assert(module.imports@.subrange(0, module.imports@.len() as int) =~= module.imports@);
        self.imports.push(list);
    }

    /// A name used by an instruction marks the imports it uses, in the
    /// current module, as used.
    fn check_instruction(
        &mut self,
        ctx: &HIRContext,
        instruction: &Spanned<HIRInstruction>,
        diagnostics: &mut Diagnostics,
    )
        ensures
            *final(diagnostics) == *old(diagnostics),
            final(self).imports@.len() == old(self).imports@.len(),
            forall|k: int| 0 <= k < old(self).imports@.len() - 1 ==> #[trigger] final(self).imports@[k] == old(self).imports@[k],
            old(self).imports@.len() > 0 ==> match instruction.value {
                HIRInstruction::Call { name, .. } => final(self).imports@.last()@ == unused_by(old(self).imports@.last()@, name@),
                HIRInstruction::Pack { name, .. } => final(self).imports@.last()@ == unused_by(old(self).imports@.last()@, name@),
                HIRInstruction::Unpack { name, .. } => final(self).imports@.last()@ == unused_by(old(self).imports@.last()@, name@),
                HIRInstruction::GetField { name, .. } => final(self).imports@.last()@ == unused_by(old(self).imports@.last()@, name@),
                _ => final(self).imports@.last() == old(self).imports@.last(),
            },
    {
        let name = match &instruction.value {
            HIRInstruction::Call { name, .. } => name,
            HIRInstruction::Pack { name, .. } => name,
            HIRInstruction::Unpack { name, .. } => name,
            HIRInstruction::GetField { name, .. } => name,
            _ => {
                return;
            },
        };
        let mut list = match self.imports.pop() {
            Some(list) => list,
            None => {
                return;
            },
        };
        let ghost original = list@;
        let mut kept: Vec<Import> = Vec::new();
        while list.len() > 0
            invariant
                original.len() >= list@.len(),
                list@ == original.subrange(original.len() - list@.len(), original.len() as int),
                kept@ == unused_by(original.subrange(0, original.len() - list@.len()), name@),
            decreases list@.len(),
        {
            let ghost t = original.len() - list@.len();
            let import = list.remove(0);
            let ghost next = original.subrange(0, t + 1);
            assert(next.drop_last() =~= original.subrange(0, t));
            assert(next.last() == import);
            assert(list@ =~= original.subrange(t + 1, original.len() as int));
            if !uses_import(name.as_str(), import.name.as_str()) {
                kept.push(import);
            }
        }
        assert(original.subrange(0, original.len() as int) =~= original);
        self.imports.push(kept);
    }

    /// Warns of every import that stayed unused, module by module.
    fn finish(&mut self, ctx: &HIRContext, program: &HIRProgram, diagnostics: &mut Diagnostics)
        ensures
            final(diagnostics).errors@ == old(diagnostics).errors@ + import_warnings(old(self).imports@),
            final(diagnostics).fatal == old(diagnostics).fatal,
    {
        let ghost start = diagnostics.errors@;
        let mut m: usize = 0;
        while m < self.imports.len()
            invariant
                m <= self.imports@.len(),
                diagnostics.errors@ == start + import_warnings(self.imports@.subrange(0, m as int)),
                diagnostics.fatal == old(diagnostics).fatal,
            decreases self.imports@.len() - m,
        {
            let ghost lists = self.imports@.subrange(0, m + 1);
            assert(lists.drop_last() =~= self.imports@.subrange(0, m as int));
            let list = &self.imports[m];
            let ghost mid = diagnostics.errors@;
            let mut k: usize = 0;
            while k < list.len()
                invariant
                    k <= list@.len(),
                    diagnostics.errors@ == mid + list_warnings(list@.subrange(0, k as int)),
                    diagnostics.fatal == old(diagnostics).fatal,
                decreases list@.len() - k,
            {
                let import = &list[k];
                let ghost before = diagnostics.errors@;
                diagnostics.emit_warning(CompileError::UnusedImport { name: copy_string(&import.name), span: import.span });
                assert(list_warnings(list@.subrange(0, k + 1)) =~= list_warnings(list@.subrange(0, k as int)).push(
                    Diagnostic { kind: DiagnosticKind::Warning, error: CompileError::UnusedImport { name: import.name, span: import.span } },
                ));
                k += 1;
            }
            assert(list@.subrange(0, list@.len() as int) =~= list@);
            m += 1;
        }
        assert(self.imports@.subrange(0, self.imports@.len() as int) =~= self.imports@);
        proof {
            lemma_import_warnings_are_warnings(self.imports@);
            assert forall|i: int| start.len() <= i < diagnostics.errors@.len() implies (
            #[trigger] diagnostics.errors@[i]).kind == DiagnosticKind::Warning by {
                assert(diagnostics.errors@[i] == import_warnings(self.imports@)[i - start.len()]);
            }
        }
    }
}

} // verus!
