//! The symbol table: every module, word, struct, type and variable of the
//! program, by dotted name and by id.
use vstd::prelude::*;

use crate::common::{DottedPath, Spanned};
use crate::error::CompileError;
use crate::stages::parse::ast::{ASTModule, ASTStackEffectItem, ASTStruct, ASTWord, ASTWordVar};
use crate::stages::semantic::hir::HIRType;
use crate::text::{
    copy_string, decimal_chars, join_seq, same_text, string_extend, string_views, usize_to_string,
};

verus! {

/// The id of a symbol: its place in the table.
#[derive(Debug, Clone, Copy, PartialEq, Eq, Structural)]
pub struct SymbolId(pub usize);

impl SymbolId {
    pub fn id(&self) -> (r: usize)
        ensures
            r == self.0,
    {
        self.0
    }
}

#[derive(Debug)]
pub enum SymbolKind {
    Module { name: DottedPath },
    Word {
        typevars: Vec<Spanned<SymbolId>>,
        stackvars: Vec<Spanned<SymbolId>>,
        stack_in: Vec<Spanned<HIRType>>,
        stack_out: Vec<Spanned<HIRType>>,
        entrypoint: bool,
    },
    Lambda { stack_in: Vec<HIRType>, stack_out: Vec<HIRType> },
    StackVar { name: String },
    TypeVar { name: String, traits: Vec<Spanned<SymbolId>> },
    Trait { name: String },
    Type { name: String, traits: Vec<SymbolId> },
    Struct { name: String, fields: Vec<Spanned<HIRType>> },
}

/// The symbol table. Symbol `i` is registered under the name
/// `symbols_index[i]`; no name is registered twice.
#[derive(Debug)]
pub struct HIRContext {
    pub symbols_index: Vec<String>,
    pub symbols: Vec<SymbolKind>,
}

/// The key of a dotted path in the table.
pub open spec fn path_key(path: Seq<Seq<char>>) -> Seq<char> {
    join_seq(path, '.')
}

/// Where `key` is registered among `names`.
pub open spec fn symbol_index(names: Seq<Seq<char>>, key: Seq<char>) -> Option<int>
    decreases names.len(),
{
    if names.len() == 0 {
        None
    } else if names.last() == key {
        Some(names.len() - 1)
    } else {
        symbol_index(names.drop_last(), key)
    }
}

pub proof fn lemma_symbol_index(names: Seq<Seq<char>>, key: Seq<char>)
    ensures
        symbol_index(names, key) matches Some(i) ==> 0 <= i < names.len() && names[i] == key,
        symbol_index(names, key) is None ==> forall|i: int|
            0 <= i < names.len() ==> #[trigger] names[i] != key,
    decreases names.len(),
{
    if names.len() > 0 {
        lemma_symbol_index(names.drop_last(), key);
        if names.last() != key {
            assert forall|i: int| 0 <= i < names.len() - 1 implies #[trigger] names[i]
                == names.drop_last()[i] by {}
        }
    }
}

/// In a table without repeated names, the index of a name is where it is.
pub proof fn lemma_symbol_index_unique(names: Seq<Seq<char>>, i: int)
    requires
        0 <= i < names.len(),
        distinct_names(names),
    ensures
        symbol_index(names, names[i]) == Some(i),
    decreases names.len(),
{
    if i < names.len() - 1 {
        assert(names.last() != names[i]);
        assert(names.drop_last()[i] == names[i]);
        assert(distinct_names(names.drop_last())) by {
            assert forall|a: int, b: int|
                0 <= a < b < names.drop_last().len() implies names.drop_last()[a]
                != names.drop_last()[b] by {
                assert(names.drop_last()[a] == names[a] && names.drop_last()[b] == names[b]);
            }
        }
        lemma_symbol_index_unique(names.drop_last(), i);
    }
}

pub open spec fn distinct_names(names: Seq<Seq<char>>) -> bool {
    forall|a: int, b: int| 0 <= a < b < names.len() ==> names[a] != names[b]
}

impl HIRContext {
    /// The names of the symbols, by id.
    pub open spec fn names(&self) -> Seq<Seq<char>> {
        string_views(self.symbols_index@)
    }

    /// Every symbol has one name and no name is used twice.
    pub open spec fn wf(&self) -> bool {
        &&& self.symbols_index@.len() == self.symbols@.len()
        &&& distinct_names(self.names())
    }

    /// The symbol registered under `key`, if any.
    pub open spec fn find(&self, key: Seq<char>) -> Option<int> {
        symbol_index(self.names(), key)
    }

    /// An empty table.
    pub fn empty() -> (r: Self)
        ensures
            r.wf(),
            r.symbols@.len() == 0,
    {
        HIRContext { symbols_index: Vec::new(), symbols: Vec::new() }
    }

    fn find_key(&self, key: &str) -> (r: Option<SymbolId>)
        ensures
            r matches Some(id) ==> self.find(key@) == Some(id.0 as int),
            r is None ==> self.find(key@) is None,
    {
        let mut i = self.symbols_index.len();
        let ghost names = self.names();
        assert(names.subrange(0, names.len() as int) =~= names);
        while i > 0
            invariant
                i <= self.symbols_index@.len(),
                names == self.names(),
                symbol_index(names, key@) == symbol_index(names.subrange(0, i as int), key@),
            decreases i,
        {
            let ghost sub = names.subrange(0, i as int);
            assert(sub.drop_last() =~= names.subrange(0, i - 1));
            assert(sub.last() == self.symbols_index@[i - 1]@);
            if same_text(self.symbols_index[i - 1].as_str(), key) {
                return Some(SymbolId(i - 1));
            }
            i -= 1;
        }
        None
    }

    /// The symbol registered under the path, if any.
    pub fn lookup(&self, name: &DottedPath) -> (r: Option<SymbolId>)
        ensures
            r matches Some(id) ==> self.find(path_key(name@)) == Some(id.0 as int),
            r is None ==> self.find(path_key(name@)) is None,
    {
        let key = name.to_dotted_string();
        self.find_key(key.as_str())
    }

    /// The symbol with the id, if there is one.
    pub fn get(&self, id: SymbolId) -> (r: Option<&SymbolKind>)
        ensures
            r matches Some(k) ==> id.0 < self.symbols@.len() && *k == self.symbols@[id.0 as int],
            r is None ==> id.0 >= self.symbols@.len(),
    {
        if id.0 < self.symbols.len() {
            Some(&self.symbols[id.0])
        } else {
            None
        }
    }

    /// The symbol registered under the path, with its kind.
    pub fn lookup_and_get(&self, name: &DottedPath) -> (r: Option<(SymbolId, &SymbolKind)>)
        requires
            self.wf(),
        ensures
            r matches Some((id, k)) ==> self.find(path_key(name@)) == Some(id.0 as int) && *k
                == self.symbols@[id.0 as int],
            r is None ==> self.find(path_key(name@)) is None,
    {
        match self.lookup(name) {
            Some(id) => {
                proof {
                    lemma_symbol_index(self.names(), path_key(name@));
                }
                match self.get(id) {
                    Some(k) => Some((id, k)),
                    None => None,
                }
            },
            None => None,
        }
    }

    fn register_key(&mut self, key: String, kind: SymbolKind) -> (r: Option<SymbolId>)
        requires
            old(self).wf(),
        ensures
            final(self).wf(),
            old(self).find(key@) is Some ==> r is None && *final(self) == *old(self),
            old(self).find(key@) is None ==> r == Some(SymbolId(old(self).symbols@.len() as usize))
                && final(self).symbols@ == old(self).symbols@.push(kind) && final(self).names()
                == old(self).names().push(key@),
    {
        if self.find_key(key.as_str()).is_some() {
            return None;
        }
        let id = SymbolId(self.symbols.len());
        let ghost old_names = self.names();
        proof {
            lemma_symbol_index(old_names, key@);
        }
        self.symbols_index.push(key);
        self.symbols.push(kind);
        proof {
            assert(self.names() =~= old_names.push(key@));
        }
        Some(id)
    }

    /// Registers a symbol under a path; `None` where the path is taken.
    /// A symbol registered is found again under its path, and every other
    /// path is found where it was found before.
    pub fn register(&mut self, path: &DottedPath, kind: SymbolKind) -> (r: Option<SymbolId>)
        requires
            old(self).wf(),
        ensures
            final(self).wf(),
            old(self).find(path_key(path@)) is Some ==> r is None && *final(self) == *old(self),
            old(self).find(path_key(path@)) is None ==> r == Some(SymbolId(old(self).symbols@.len() as usize))
                && final(self).symbols@ == old(self).symbols@.push(kind) && final(self).names()
                == old(self).names().push(path_key(path@)),
            r matches Some(id) ==> final(self).find(path_key(path@)) == Some(id.0 as int),
            forall|k: Seq<char>|
                k != path_key(path@) ==> #[trigger] final(self).find(k) == old(self).find(k),
            forall|k: Seq<char>|
                old(self).find(k) is Some ==> #[trigger] final(self).find(k) == old(self).find(k),
    {
        proof {
            assert(self.symbols@.len() == self.symbols.len());
        }
        let key = path.to_dotted_string();
        let r = self.register_key(key, kind);
        proof {
            let k0 = path_key(path@);
            if old(self).find(k0) is None {
                assert(self.names().drop_last() =~= old(self).names());
                lemma_symbol_index_unique(self.names(), self.names().len() - 1);
            }
        }
        r
    }
}

/// The types of stack effect items, one for each, resolved.
pub open spec fn resolves_all(
    ctx: &HIRContext,
    module_name: Seq<Seq<char>>,
    wordpath: Seq<Seq<char>>,
    items: Seq<Spanned<ASTStackEffectItem>>,
    tys: Seq<HIRType>,
) -> bool
    decreases items,
{
    &&& items.len() == tys.len()
    &&& items.len() > 0 ==> resolves_all(
        ctx,
        module_name,
        wordpath,
        items.drop_last(),
        tys.drop_last(),
    ) && resolves_to(ctx, module_name, wordpath, items.last().value, tys.last())
}

/// Whether every item resolves.
pub open spec fn all_resolvable(
    ctx: &HIRContext,
    module_name: Seq<Seq<char>>,
    wordpath: Seq<Seq<char>>,
    items: Seq<Spanned<ASTStackEffectItem>>,
) -> bool
    decreases items,
{
    items.len() > 0 ==> all_resolvable(ctx, module_name, wordpath, items.drop_last())
        && resolvable(ctx, module_name, wordpath, items.last().value)
}

/// The type a type name stands for: a built-in type or a struct.
pub open spec fn path_type(ctx: &HIRContext, key: Seq<char>) -> Option<HIRType> {
    match ctx.find(key) {
        Some(i) => match ctx.symbols@[i] {
            SymbolKind::Type { .. } => Some(HIRType::BuiltIn(SymbolId(i as usize))),
            SymbolKind::Struct { .. } => Some(HIRType::Struct(SymbolId(i as usize))),
            _ => None,
        },
        None => None,
    }
}

/// The type variable of the word named by a one-segment name.
pub open spec fn word_type_var(ctx: &HIRContext, wordpath: Seq<Seq<char>>, name: Seq<Seq<char>>) -> Option<
    HIRType,
> {
    if name.len() == 1 {
        match ctx.find(path_key(wordpath + name)) {
            Some(i) => match ctx.symbols@[i] {
                SymbolKind::TypeVar { .. } => Some(HIRType::TypeVar(SymbolId(i as usize))),
                _ => None,
            },
            None => None,
        }
    } else {
        None
    }
}

/// A type name resolves to a type variable of the word; else, where it has
/// one segment, to a type of the module; else to the type of that name.
pub open spec fn resolve_type_name(
    ctx: &HIRContext,
    module_name: Seq<Seq<char>>,
    wordpath: Seq<Seq<char>>,
    name: Seq<Seq<char>>,
) -> Option<HIRType> {
    if word_type_var(ctx, wordpath, name) is Some {
        word_type_var(ctx, wordpath, name)
    } else if name.len() == 1 && path_type(ctx, path_key(module_name + name)) is Some {
        path_type(ctx, path_key(module_name + name))
    } else {
        path_type(ctx, path_key(name))
    }
}

/// The stack variable `...name` of the word.
pub open spec fn word_stack_var(ctx: &HIRContext, wordpath: Seq<Seq<char>>, name: Seq<char>) -> Option<
    HIRType,
> {
    match ctx.find(path_key(wordpath.push(name))) {
        Some(i) => match ctx.symbols@[i] {
            SymbolKind::StackVar { .. } => Some(HIRType::StackVar(SymbolId(i as usize))),
            _ => None,
        },
        None => None,
    }
}

/// The type a stack effect item stands for in a word of a module.
pub open spec fn resolves_to(
    ctx: &HIRContext,
    module_name: Seq<Seq<char>>,
    wordpath: Seq<Seq<char>>,
    item: ASTStackEffectItem,
    ty: HIRType,
) -> bool
    decreases item,
{
    match item {
        ASTStackEffectItem::Symbol { name } => resolve_type_name(ctx, module_name, wordpath, name@)
            == Some(ty),
        ASTStackEffectItem::StackVar { name } => word_stack_var(ctx, wordpath, name@) == Some(ty),
        ASTStackEffectItem::Lambda { stack_effect } => match ty {
            HIRType::Lambda { stack_in, stack_out } => resolves_all(
                ctx,
                module_name,
                wordpath,
                stack_effect.value.stack_in@,
                stack_in@,
            ) && resolves_all(ctx, module_name, wordpath, stack_effect.value.stack_out@, stack_out@),
            _ => false,
        },
        ASTStackEffectItem::Array { element, size } => match ty {
            HIRType::Array { element: e, size: s } => s == size && resolves_to(
                ctx,
                module_name,
                wordpath,
                element.value,
                *e,
            ),
            _ => false,
        },
    }
}

/// Whether a stack effect item stands for a type in a word of a module.
pub open spec fn resolvable(
    ctx: &HIRContext,
    module_name: Seq<Seq<char>>,
    wordpath: Seq<Seq<char>>,
    item: ASTStackEffectItem,
) -> bool
    decreases item,
{
    match item {
        ASTStackEffectItem::Symbol { name } => resolve_type_name(ctx, module_name, wordpath, name@)
            is Some,
        ASTStackEffectItem::StackVar { name } => word_stack_var(ctx, wordpath, name@) is Some,
        ASTStackEffectItem::Lambda { stack_effect } => all_resolvable(
            ctx,
            module_name,
            wordpath,
            stack_effect.value.stack_in@,
        ) && all_resolvable(ctx, module_name, wordpath, stack_effect.value.stack_out@),
        ASTStackEffectItem::Array { element, size } => resolvable(
            ctx,
            module_name,
            wordpath,
            element.value,
        ),
    }
}

/// A type name or stack variable that does not resolve is reported by its
/// name, at the item's span.
pub open spec fn item_not_found(item: ASTStackEffectItem, span: crate::common::Span, r: Result<HIRType, CompileError>) -> bool {
    match item {
        ASTStackEffectItem::Symbol { name } => r matches Err(CompileError::SymbolNotFound { name: n, span: s }) ==> n@
            == join_seq(name@, '.') && s == span,
        ASTStackEffectItem::StackVar { name } => r matches Err(CompileError::SymbolNotFound { name: n, span: s })
            ==> n@ == name@ && s == span,
        _ => true,
    }
}

/// The name a word variable is declared with.
pub open spec fn var_name(v: ASTWordVar) -> Seq<char> {
    match v {
        ASTWordVar::Type { name } => name.value@,
        ASTWordVar::Stack { name } => name.value@,
    }
}

/// The key a word variable is registered under.
pub open spec fn var_key(wordpath: Seq<Seq<char>>, v: ASTWordVar) -> Seq<char> {
    path_key(wordpath.push(var_name(v)))
}

/// The word's variables have distinct names, none registered yet.
pub open spec fn word_vars_free(ctx: &HIRContext, wordpath: Seq<Seq<char>>, vars: Seq<ASTWordVar>) -> bool {
    &&& forall|i: int| 0 <= i < vars.len() ==> ctx.find(var_key(wordpath, #[trigger] vars[i])) is None
    &&& forall|i: int, j: int| 0 <= i < j < vars.len() ==> var_name(#[trigger] vars[i]) != var_name(#[trigger] vars[j])
}

/// The name is registered as a module.
pub open spec fn module_is(ctx: &HIRContext, module_name: Seq<Seq<char>>) -> bool {
    ctx.find(path_key(module_name)) matches Some(i) && ctx.symbols@[i] is Module
}

/// A path with one more segment has a longer key, which determines that
/// segment.
pub proof fn lemma_push_key(wp: Seq<Seq<char>>, a: Seq<char>, b: Seq<char>)
    requires
        wp.len() >= 1,
    ensures
        path_key(wp.push(a)).len() > path_key(wp).len(),
        path_key(wp.push(a)) == path_key(wp.push(b)) ==> a == b,
{
    assert(wp.push(a).drop_last() =~= wp);
    assert(wp.push(b).drop_last() =~= wp);
    let p = path_key(wp).push('.');
    assert(path_key(wp.push(a)) == p + a);
    assert(path_key(wp.push(b)) == p + b);
    if p + a == p + b {
        assert(a =~= (p + a).subrange(p.len() as int, (p + a).len() as int));
        assert(b =~= (p + b).subrange(p.len() as int, (p + b).len() as int));
    }
}

/// Two tables find the same types, type variables and stack variables
/// under every name.
pub open spec fn same_type_lookups(c1: &HIRContext, c2: &HIRContext) -> bool {
    &&& forall|k: Seq<char>| #[trigger] path_type(c2, k) == path_type(c1, k)
    &&& forall|wp: Seq<Seq<char>>, name: Seq<Seq<char>>| #[trigger] word_type_var(c2, wp, name) == word_type_var(c1, wp, name)
    &&& forall|wp: Seq<Seq<char>>, name: Seq<char>| #[trigger] word_stack_var(c2, wp, name) == word_stack_var(c1, wp, name)
}

/// Adding a word under a new name changes no type lookup.
pub proof fn lemma_add_word_same_lookups(c1: &HIRContext, c2: &HIRContext, key: Seq<char>)
    requires
        c1.wf(),
        c1.find(key) is None,
        c2.symbols@ == c1.symbols@.push(c2.symbols@.last()),
        c2.symbols@.last() is Word,
        c2.find(key) == Some(c1.symbols@.len() as int),
        forall|k: Seq<char>| k != key ==> #[trigger] c2.find(k) == c1.find(k),
    ensures
        same_type_lookups(c1, c2),
{
    assert forall|k: Seq<char>| #[trigger] path_type(c2, k) == path_type(c1, k) by {
        lemma_symbol_index(c1.names(), k);
        if k != key {
            if let Some(i) = c1.find(k) {
                assert(c2.symbols@[i] == c1.symbols@[i]);
            }
        }
    }
    assert forall|wp: Seq<Seq<char>>, name: Seq<Seq<char>>| #[trigger] word_type_var(c2, wp, name) == word_type_var(c1, wp, name) by {
        let k = path_key(wp + name);
        lemma_symbol_index(c1.names(), k);
        if k != key {
            if let Some(i) = c1.find(k) {
                assert(c2.symbols@[i] == c1.symbols@[i]);
            }
        }
    }
    assert forall|wp: Seq<Seq<char>>, name: Seq<char>| #[trigger] word_stack_var(c2, wp, name) == word_stack_var(c1, wp, name) by {
        let k = path_key(wp.push(name));
        lemma_symbol_index(c1.names(), k);
        if k != key {
            if let Some(i) = c1.find(k) {
                assert(c2.symbols@[i] == c1.symbols@[i]);
            }
        }
    }
}

/// Tables with the same type lookups resolve the same items.
pub proof fn lemma_resolvable_same(
    c1: &HIRContext,
    c2: &HIRContext,
    module_name: Seq<Seq<char>>,
    wordpath: Seq<Seq<char>>,
    item: ASTStackEffectItem,
)
    requires
        same_type_lookups(c1, c2),
    ensures
        resolvable(c2, module_name, wordpath, item) == resolvable(c1, module_name, wordpath, item),
    decreases item, 0nat,
{
    match item {
        ASTStackEffectItem::Symbol { name } => {
            assert(word_type_var(c2, wordpath, name@) == word_type_var(c1, wordpath, name@));
            assert(path_type(c2, path_key(module_name + name@)) == path_type(c1, path_key(module_name + name@)));
            assert(path_type(c2, path_key(name@)) == path_type(c1, path_key(name@)));
        },
        ASTStackEffectItem::StackVar { name } => {
            assert(word_stack_var(c2, wordpath, name@) == word_stack_var(c1, wordpath, name@));
        },
        ASTStackEffectItem::Lambda { stack_effect } => {
            lemma_all_resolvable_same(c1, c2, module_name, wordpath, stack_effect.value.stack_in@);
            lemma_all_resolvable_same(c1, c2, module_name, wordpath, stack_effect.value.stack_out@);
        },
        ASTStackEffectItem::Array { element, size } => {
            lemma_resolvable_same(c1, c2, module_name, wordpath, element.value);
        },
    }
}

/// Tables with the same type lookups resolve the same lists of items.
pub proof fn lemma_all_resolvable_same(
    c1: &HIRContext,
    c2: &HIRContext,
    module_name: Seq<Seq<char>>,
    wordpath: Seq<Seq<char>>,
    items: Seq<Spanned<ASTStackEffectItem>>,
)
    requires
        same_type_lookups(c1, c2),
    ensures
        all_resolvable(c2, module_name, wordpath, items) == all_resolvable(c1, module_name, wordpath, items),
    decreases items, 1nat,
{
    if items.len() > 0 {
        lemma_all_resolvable_same(c1, c2, module_name, wordpath, items.drop_last());
        lemma_resolvable_same(c1, c2, module_name, wordpath, items.last().value);
    }
}

/// A type's name as diagnostics write it.
pub open spec fn type_text(ctx: &HIRContext, ty: HIRType) -> Seq<char>
    decreases ty,
{
    match ty {
        HIRType::BuiltIn(id) => if id.0 < ctx.symbols@.len() {
            match ctx.symbols@[id.0 as int] {
                SymbolKind::Type { name, .. } => name@,
                _ => "<unknown>"@,
            }
        } else {
            "<unknown>"@
        },
        HIRType::Struct(id) => if id.0 < ctx.symbols@.len() {
            match ctx.symbols@[id.0 as int] {
                SymbolKind::Struct { name, .. } => name@,
                _ => "<unknown>"@,
            }
        } else {
            "<unknown>"@
        },
        HIRType::TypeVar(id) => if id.0 < ctx.symbols@.len() {
            match ctx.symbols@[id.0 as int] {
                SymbolKind::TypeVar { name, .. } => name@,
                _ => "<unknown>"@,
            }
        } else {
            "<unknown>"@
        },
        HIRType::StackVar(id) => if id.0 < ctx.symbols@.len() {
            match ctx.symbols@[id.0 as int] {
                SymbolKind::StackVar { name } => "..."@ + name@,
                _ => "<unknown>"@,
            }
        } else {
            "<unknown>"@
        },
        HIRType::Lambda { stack_in, stack_out } => "|"@ + types_text(ctx, stack_in@) + " -- "@
            + types_text(ctx, stack_out@) + "|"@,
        HIRType::Array { element, size } => "["@ + type_text(ctx, *element) + "; "@
            + decimal_chars(size as nat) + "]"@,
    }
}

/// Types separated by `, `.
pub open spec fn types_text(ctx: &HIRContext, tys: Seq<HIRType>) -> Seq<char>
    decreases tys,
{
    if tys.len() == 0 {
        Seq::empty()
    } else if tys.len() == 1 {
        type_text(ctx, tys[0])
    } else {
        types_text(ctx, tys.drop_last()) + ", "@ + type_text(ctx, tys.last())
    }
}

impl HIRContext {
    /// A type's name as diagnostics write it.
    pub fn format_type(&self, ty: &HIRType) -> (r: String)
        ensures
            r@ == type_text(self, *ty),
        decreases ty,
    {
        match ty {
            HIRType::BuiltIn(id) => match self.get(*id) {
                Some(SymbolKind::Type { name, .. }) => copy_string(name),
                _ => String::from_str("<unknown>"),
            },
            HIRType::Struct(id) => match self.get(*id) {
                Some(SymbolKind::Struct { name, .. }) => copy_string(name),
                _ => String::from_str("<unknown>"),
            },
            HIRType::TypeVar(id) => match self.get(*id) {
                Some(SymbolKind::TypeVar { name, .. }) => copy_string(name),
                _ => String::from_str("<unknown>"),
            },
            HIRType::StackVar(id) => match self.get(*id) {
                Some(SymbolKind::StackVar { name }) => {
                    let mut s = String::from_str("...");
                    string_extend(&mut s, name.as_str());
                    s
                },
                _ => String::from_str("<unknown>"),
            },
            HIRType::Lambda { stack_in, stack_out } => {
                let mut s = String::from_str("|");
                let a = self.format_types(stack_in);
                string_extend(&mut s, a.as_str());
                string_extend(&mut s, " -- ");
                let b = self.format_types(stack_out);
                string_extend(&mut s, b.as_str());
                string_extend(&mut s, "|");
                s
            },
            HIRType::Array { element, size } => {
                let mut s = String::from_str("[");
                let e = self.format_type(element);
                string_extend(&mut s, e.as_str());
                string_extend(&mut s, "; ");
                let n = usize_to_string(*size);
                string_extend(&mut s, n.as_str());
                string_extend(&mut s, "]");
                s
            },
        }
    }

    /// Types separated by `, `.
    pub fn format_types(&self, tys: &Vec<HIRType>) -> (r: String)
        ensures
            r@ == types_text(self, tys@),
        decreases tys@,
    {
        let mut s = String::new();
        let mut i: usize = 0;
        assert(tys@.subrange(0, 0) =~= Seq::<HIRType>::empty());
        while i < tys.len()
            invariant
                i <= tys@.len(),
                s@ == types_text(self, tys@.subrange(0, i as int)),
            decreases tys@.len() - i,
        {
            if i > 0 {
                string_extend(&mut s, ", ");
            }
            let t = self.format_type(&tys[i]);
            string_extend(&mut s, t.as_str());
            assert(tys@.subrange(0, i + 1).drop_last() =~= tys@.subrange(0, i as int));
            i += 1;
        }
        assert(tys@.subrange(0, tys@.len() as int) =~= tys@);
        s
    }
}

proof fn lemma_all_resolvable_prefix(
    ctx: &HIRContext,
    module_name: Seq<Seq<char>>,
    wordpath: Seq<Seq<char>>,
    items: Seq<Spanned<ASTStackEffectItem>>,
    j: int,
)
    requires
        0 <= j < items.len(),
        all_resolvable(ctx, module_name, wordpath, items),
    ensures
        resolvable(ctx, module_name, wordpath, items[j].value),
    decreases items.len(),
{
    if j < items.len() - 1 {
        assert(items.drop_last()[j] == items[j]);
        lemma_all_resolvable_prefix(ctx, module_name, wordpath, items.drop_last(), j);
    }
}

impl HIRContext {
    /// The type a stack effect item stands for in the word `wordpath` of the
    /// module `module_name`: a type variable of the word, a type or struct of
    /// the module, a type or struct by its full name, or a stack variable of
    /// the word; lambdas and arrays are resolved item by item.
    pub fn handle_stack_item(
        &self,
        module_name: &DottedPath,
        wordpath: &DottedPath,
        item: &Spanned<ASTStackEffectItem>,
    ) -> (r: Result<HIRType, CompileError>)
        requires
            self.wf(),
        ensures
            r is Ok <==> resolvable(self, module_name@, wordpath@, item.value),
            r matches Ok(ty) ==> resolves_to(self, module_name@, wordpath@, item.value, ty),
            r matches Err(e) ==> e is SymbolNotFound,
            item_not_found(item.value, item.span, r),
        decreases item,
    {
        match &item.value {
            ASTStackEffectItem::Symbol { name } => {
                if name.len() == 1 {
                    let full = wordpath.extend(name);
                    match self.lookup_and_get(&full) {
                        Some((id, SymbolKind::TypeVar { .. })) => {
                            return Ok(HIRType::TypeVar(id));
                        },
                        _ => {},
                    }
                    let local = module_name.extend(name);
                    match self.lookup_and_get(&local) {
                        Some((id, SymbolKind::Type { .. })) => {
                            return Ok(HIRType::BuiltIn(id));
                        },
                        Some((id, SymbolKind::Struct { .. })) => {
                            return Ok(HIRType::Struct(id));
                        },
                        _ => {},
                    }
                }
                match self.lookup_and_get(name) {
                    Some((id, SymbolKind::Type { .. })) => Ok(HIRType::BuiltIn(id)),
                    Some((id, SymbolKind::Struct { .. })) => Ok(HIRType::Struct(id)),
                    _ => Err(
                        CompileError::SymbolNotFound { name: name.to_dotted_string(), span: item.span },
                    ),
                }
            },
            ASTStackEffectItem::StackVar { name } => {
                let full = wordpath.append(name.as_str());
                match self.lookup_and_get(&full) {
                    Some((id, SymbolKind::StackVar { .. })) => Ok(HIRType::StackVar(id)),
                    _ => Err(CompileError::SymbolNotFound { name: copy_string(name), span: item.span }),
                }
            },
            ASTStackEffectItem::Lambda { stack_effect } => {
                let stack_in = self.resolve_items(module_name, wordpath, &stack_effect.value.stack_in)?;
                let stack_out = self.resolve_items(module_name, wordpath, &stack_effect.value.stack_out)?;
                Ok(HIRType::Lambda { stack_in, stack_out })
            },
            ASTStackEffectItem::Array { element, size } => {
                let ty = self.handle_stack_item(module_name, wordpath, element)?;
                Ok(HIRType::Array { element: Box::new(ty), size: *size })
            },
        }
    }

    /// The types of the items, in order; the first item that does not
    /// resolve is an error.
    pub fn resolve_items(
        &self,
        module_name: &DottedPath,
        wordpath: &DottedPath,
        items: &Vec<Spanned<ASTStackEffectItem>>,
    ) -> (r: Result<Vec<HIRType>, CompileError>)
        requires
            self.wf(),
        ensures
            r is Ok <==> all_resolvable(self, module_name@, wordpath@, items@),
            r matches Ok(tys) ==> resolves_all(self, module_name@, wordpath@, items@, tys@),
            r matches Err(e) ==> e is SymbolNotFound,
        decreases items@,
    {
        let mut tys: Vec<HIRType> = Vec::new();
        let mut i: usize = 0;
        assert(items@.subrange(0, 0) =~= Seq::<Spanned<ASTStackEffectItem>>::empty());
        while i < items.len()
            invariant
                self.wf(),
                i <= items@.len(),
                all_resolvable(self, module_name@, wordpath@, items@.subrange(0, i as int)),
                resolves_all(self, module_name@, wordpath@, items@.subrange(0, i as int), tys@),
            decreases items@.len() - i,
        {
            let ty = match self.handle_stack_item(module_name, wordpath, &items[i]) {
                Ok(ty) => ty,
                Err(e) => {
                    proof {
                        if all_resolvable(self, module_name@, wordpath@, items@) {
                            lemma_all_resolvable_prefix(self, module_name@, wordpath@, items@, i as int);
                        }
                    }
                    return Err(e);
                },
            };
            let ghost before = tys@;
            tys.push(ty);
            proof {
                let sub = items@.subrange(0, i + 1);
                assert(sub.drop_last() =~= items@.subrange(0, i as int));
                assert(tys@.drop_last() =~= before);
            }
            i += 1;
        }
        assert(items@.subrange(0, items@.len() as int) =~= items@);
        Ok(tys)
    }
}

impl HIRContext {
    /// Registers a module under its name.
    pub fn register_module(&mut self, module: &ASTModule) -> (r: Result<SymbolId, CompileError>)
        requires
            old(self).wf(),
        ensures
            final(self).wf(),
            r is Ok <==> old(self).find(path_key(module.name.value@)) is None,
            r matches Ok(id) ==> final(self).find(path_key(module.name.value@)) == Some(id.0 as int)
                && id.0 == old(self).symbols@.len() && final(self).symbols@.len() == id.0 + 1
                && final(self).symbols@.drop_last() == old(self).symbols@ && (final(self).symbols@.last() matches SymbolKind::Module { name } && name@ == module.name.value@),
            r matches Err(e) ==> e is SymbolAlreadyExists && *final(self) == *old(self),
            forall|k: Seq<char>|
                old(self).find(k) is Some ==> #[trigger] final(self).find(k) == old(self).find(k),
    {
        let name = module.name.value.copy();
        match self.register(&module.name.value, SymbolKind::Module { name }) {
            Some(id) => {
                proof {
                    assert(self.symbols@.drop_last() =~= old(self).symbols@);
                }
                Ok(id)
            },
            None => Err(
                CompileError::SymbolAlreadyExists {
                    name: module.name.value.to_dotted_string(),
                    span: module.name.span,
                },
            ),
        }
    }

    /// Registers a struct of a module under `module.name`, with its fields.
    pub fn register_struct(
        &mut self,
        module_id: SymbolId,
        item: &ASTStruct,
        fields: Vec<Spanned<HIRType>>,
    ) -> (r: Result<SymbolId, CompileError>)
        requires
            old(self).wf(),
        ensures
            final(self).wf(),
            r matches Ok(id) ==> id.0 == old(self).symbols@.len() && final(self).symbols@.len()
                == id.0 + 1 && final(self).symbols@.drop_last() == old(self).symbols@ && (final(self).symbols@.last() matches SymbolKind::Struct { name, fields: f } && f == fields),
            r matches Ok(id) ==> module_id.0 < old(self).symbols@.len() && (old(self).symbols@[
                module_id.0 as int] matches SymbolKind::Module { name } && final(self).find(
                path_key(name@.push(item.name.value@)),
            ) == Some(id.0 as int) && old(self).find(path_key(name@.push(item.name.value@)))
                is None),
            r is Err ==> *final(self) == *old(self),
            r matches Err(e) ==> e is SymbolAlreadyExists || e is Unknown,
            forall|k: Seq<char>|
                old(self).find(k) is Some ==> #[trigger] final(self).find(k) == old(self).find(k),
    {
        let fullpath = match self.get(module_id) {
            Some(SymbolKind::Module { name }) => name.append(item.name.value.as_str()),
            _ => {
                return Err(CompileError::unknown("Invalid module for struct"));
            },
        };
        let display_name = fullpath.to_dotted_string();
        let shown = copy_string(&display_name);
        match self.register(&fullpath, SymbolKind::Struct { name: display_name, fields }) {
            Some(id) => {
                proof {
                    assert(self.symbols@.drop_last() =~= old(self).symbols@);
                }
                Ok(id)
            },
            None => Err(CompileError::SymbolAlreadyExists { name: shown, span: item.name.span }),
        }
    }

    /// Registers a word of a module, its type and stack variables, and its
    /// stack effect with every type resolved.
    pub fn register_word(&mut self, module_name: &DottedPath, word: &ASTWord, entrypoint: bool) -> (r:
        Result<SymbolId, CompileError>)
        requires
            old(self).wf(),
        ensures
            final(self).wf(),
            old(self).symbols@.is_prefix_of(final(self).symbols@),
            r matches Ok(id) ==> final(self).find(path_key(module_name@.push(word.name.value@)))
                == Some(id.0 as int) && id.0 < final(self).symbols@.len() && (final(self).symbols@[id.0 as int] matches SymbolKind::Word { stack_in, stack_out, entrypoint: e, .. }
                && e == entrypoint && stack_in@.len() == word.stack_effect.value.stack_in@.len()
                && stack_out@.len() == word.stack_effect.value.stack_out@.len()),
            r matches Err(e) ==> e is Unknown || e is SymbolAlreadyExists || e is SymbolNotFound,
            r is Ok <==> {
                &&& module_is(old(self), module_name@)
                &&& word_vars_free(old(self), module_name@.push(word.name.value@), word.word_vars@)
                &&& old(self).find(path_key(module_name@.push(word.name.value@))) is None
                &&& all_resolvable(
                    final(self),
                    module_name@,
                    module_name@.push(word.name.value@),
                    word.stack_effect.value.stack_in@,
                )
                &&& all_resolvable(
                    final(self),
                    module_name@,
                    module_name@.push(word.name.value@),
                    word.stack_effect.value.stack_out@,
                )
            },
            !module_is(old(self), module_name@) ==> (r matches Err(e) && e is Unknown && *final(self) == *old(self)),
            module_is(old(self), module_name@) && !word_vars_free(
                old(self),
                module_name@.push(word.name.value@),
                word.word_vars@,
            ) ==> (r matches Err(e) && e is SymbolAlreadyExists),
            module_is(old(self), module_name@) && word_vars_free(
                old(self),
                module_name@.push(word.name.value@),
                word.word_vars@,
            ) && !(all_resolvable(
                final(self),
                module_name@,
                module_name@.push(word.name.value@),
                word.stack_effect.value.stack_in@,
            ) && all_resolvable(
                final(self),
                module_name@,
                module_name@.push(word.name.value@),
                word.stack_effect.value.stack_out@,
            )) ==> (r matches Err(e) && e is SymbolNotFound),
            module_is(old(self), module_name@) && word_vars_free(
                old(self),
                module_name@.push(word.name.value@),
                word.word_vars@,
            ) && old(self).find(path_key(module_name@.push(word.name.value@))) is Some && all_resolvable(
                final(self),
                module_name@,
                module_name@.push(word.name.value@),
                word.stack_effect.value.stack_in@,
            ) && all_resolvable(
                final(self),
                module_name@,
                module_name@.push(word.name.value@),
                word.stack_effect.value.stack_out@,
            ) ==> (r matches Err(CompileError::SymbolAlreadyExists { name, span }) && name@ == word.name.value@
                && span == word.name.span),
            forall|k: Seq<char>|
                old(self).find(k) is Some ==> #[trigger] final(self).find(k) == old(self).find(k),
            forall|i: int|
                old(self).symbols@.len() <= i < final(self).symbols@.len() ==> !(
                #[trigger] final(self).symbols@[i] is Struct),
    {
        match self.lookup_and_get(module_name) {
            Some((_, SymbolKind::Module { .. })) => {},
            _ => {
                return Err(CompileError::unknown("Invalid module for word"));
            },
        }
        let wordpath = module_name.append(word.name.value.as_str());
        let ghost wp = wordpath@;
        let ghost vars = word.word_vars@;
        let ghost wkey = path_key(wp);
        let mut typevars: Vec<Spanned<SymbolId>> = Vec::new();
        let mut stackvars: Vec<Spanned<SymbolId>> = Vec::new();
        let mut i: usize = 0;
        while i < word.word_vars.len()
            invariant
                self.wf(),
                old(self).symbols@.is_prefix_of(self.symbols@),
                i <= word.word_vars@.len(),
                wp == wordpath@,
                wp == module_name@.push(word.name.value@),
                vars == word.word_vars@,
                wkey == path_key(wp),
                module_is(old(self), module_name@),
                forall|k: Seq<char>|
                    old(self).find(k) is Some ==> #[trigger] self.find(k) == old(self).find(k),
                forall|k: Seq<char>|
                    #[trigger] self.find(k) is Some ==> old(self).find(k) is Some || exists|j: int|
                        0 <= j < i && k == var_key(wp, #[trigger] vars[j]),
                self.find(wkey) == old(self).find(wkey),
                forall|j: int| 0 <= j < i ==> self.find(var_key(wp, #[trigger] vars[j])) is Some,
                forall|j: int| 0 <= j < i ==> old(self).find(var_key(wp, #[trigger] vars[j])) is None,
                forall|j1: int, j2: int| 0 <= j1 < j2 < i ==> var_name(#[trigger] vars[j1]) != var_name(#[trigger] vars[j2]),
                forall|j: int|
                    old(self).symbols@.len() <= j < self.symbols@.len() ==> !(
                    #[trigger] self.symbols@[j] is Struct),
            decreases word.word_vars@.len() - i,
        {
            let ghost before = *self;
            let ghost key = var_key(wp, vars[i as int]);
            proof {
                lemma_push_key(wp, var_name(vars[i as int]), var_name(vars[i as int]));
                if word_vars_free(old(self), wp, vars) {
                    if self.find(key) is Some {
                        assert(old(self).find(var_key(wp, vars[i as int])) is None);
                        let j = choose|j: int| 0 <= j < i && key == var_key(wp, #[trigger] vars[j]);
                        lemma_push_key(wp, var_name(vars[j]), var_name(vars[i as int]));
                        assert(var_name(vars[j]) != var_name(vars[i as int]));
                    }
                }
            }
            let ok = match &word.word_vars[i] {
                ASTWordVar::Stack { name } => {
                    let path = wordpath.append(name.value.as_str());
                    assert(path_key(path@) == key);
                    match self.register(&path, SymbolKind::StackVar { name: copy_string(&name.value) }) {
                        Some(id) => {
                            stackvars.push(Spanned::new(id, name.span));
                            true
                        },
                        None => false,
                    }
                },
                ASTWordVar::Type { name } => {
                    let path = wordpath.append(name.value.as_str());
                    assert(path_key(path@) == key);
                    match self.register(
                        &path,
                        SymbolKind::TypeVar { name: copy_string(&name.value), traits: Vec::new() },
                    ) {
                        Some(id) => {
                            typevars.push(Spanned::new(id, name.span));
                            true
                        },
                        None => false,
                    }
                },
            };
            if !ok {
                proof {
                    if word_vars_free(old(self), wp, vars) {
                        assert(before.find(key) is None);
                    }
                }
                let vname = match &word.word_vars[i] {
                    ASTWordVar::Stack { name } => copy_string(&name.value),
                    ASTWordVar::Type { name } => copy_string(&name.value),
                };
                return Err(CompileError::SymbolAlreadyExists { name: vname, span: word.name.span });
            }
            proof {
                assert(self.symbols@.subrange(0, old(self).symbols@.len() as int)
                    =~= before.symbols@.subrange(0, old(self).symbols@.len() as int));
                lemma_push_key(wp, var_name(vars[i as int]), var_name(vars[i as int]));
                assert(key != wkey);
                assert forall|k: Seq<char>| #[trigger] self.find(k) is Some implies old(self).find(k) is Some || exists|j: int|
                    0 <= j < i + 1 && k == var_key(wp, #[trigger] vars[j]) by {
                    if k != key {
                        assert(before.find(k) is Some);
                    } else {
                        assert(k == var_key(wp, vars[i as int]));
                    }
                }
                assert(before.find(key) is None);
                assert forall|j: int| 0 <= j < i + 1 implies self.find(var_key(wp, #[trigger] vars[j])) is Some by {
                    if j < i {
                        assert(before.find(var_key(wp, vars[j])) is Some);
                    }
                }
                assert forall|j: int| 0 <= j < i + 1 implies old(self).find(var_key(wp, #[trigger] vars[j])) is None by {
                    if j == i {
                        if old(self).find(key) is Some {
                            assert(before.find(key) == old(self).find(key));
                        }
                    }
                }
                assert forall|j1: int, j2: int| 0 <= j1 < j2 < i + 1 implies var_name(#[trigger] vars[j1]) != var_name(
                    #[trigger] vars[j2],
                ) by {
                    if j2 == i {
                        if var_name(vars[j1]) == var_name(vars[j2]) {
                            assert(var_key(wp, vars[j1]) == key);
                            assert(before.find(var_key(wp, vars[j1])) is Some);
                        }
                    }
                }
            }
            i += 1;
        }
        assert(word_vars_free(old(self), wp, vars));
        let stack_in = self.resolve_spanned(module_name, &wordpath, &word.stack_effect.value.stack_in)?;
        let stack_out = self.resolve_spanned(module_name, &wordpath, &word.stack_effect.value.stack_out)?;
        let ghost before = *self;
        let kind = SymbolKind::Word { typevars, stackvars, stack_in, stack_out, entrypoint };
        match self.register(&wordpath, kind) {
            Some(id) => {
                proof {
                    assert(self.symbols@.subrange(0, old(self).symbols@.len() as int)
                        =~= before.symbols@.subrange(0, old(self).symbols@.len() as int));
                    lemma_add_word_same_lookups(&before, self, wkey);
                    lemma_all_resolvable_same(&before, self, module_name@, wp, word.stack_effect.value.stack_in@);
                    lemma_all_resolvable_same(&before, self, module_name@, wp, word.stack_effect.value.stack_out@);
                }
                Ok(id)
            },
            None => Err(
                CompileError::SymbolAlreadyExists {
                    name: copy_string(&word.name.value),
                    span: word.name.span,
                },
            ),
        }
    }

    /// The types of the items, each with the span of its item.
    fn resolve_spanned(
        &self,
        module_name: &DottedPath,
        wordpath: &DottedPath,
        items: &Vec<Spanned<ASTStackEffectItem>>,
    ) -> (r: Result<Vec<Spanned<HIRType>>, CompileError>)
        requires
            self.wf(),
        ensures
            r is Ok <==> all_resolvable(self, module_name@, wordpath@, items@),
            r matches Ok(tys) ==> tys@.len() == items@.len() && forall|j: int|
                0 <= j < items@.len() ==> resolves_to(
                    self,
                    module_name@,
                    wordpath@,
                    #[trigger] items@[j].value,
                    tys@[j].value,
                ) && tys@[j].span == items@[j].span,
            r matches Err(e) ==> e is SymbolNotFound,
    {
        let mut tys: Vec<Spanned<HIRType>> = Vec::new();
        let mut i: usize = 0;
        assert(items@.subrange(0, 0) =~= Seq::<Spanned<ASTStackEffectItem>>::empty());
        while i < items.len()
            invariant
                self.wf(),
                i <= items@.len(),
                tys@.len() == i,
                all_resolvable(self, module_name@, wordpath@, items@.subrange(0, i as int)),
                forall|j: int|
                    0 <= j < i ==> resolves_to(
                        self,
                        module_name@,
                        wordpath@,
                        #[trigger] items@[j].value,
                        tys@[j].value,
                    ) && tys@[j].span == items@[j].span,
            decreases items@.len() - i,
        {
            let ty = match self.handle_stack_item(module_name, wordpath, &items[i]) {
                Ok(ty) => ty,
                Err(e) => {
                    proof {
                        if all_resolvable(self, module_name@, wordpath@, items@) {
                            lemma_all_resolvable_prefix(self, module_name@, wordpath@, items@, i as int);
                        }
                    }
                    return Err(e);
                },
            };
            tys.push(Spanned::new(ty, items[i].span));
            proof {
                let sub = items@.subrange(0, i + 1);
                assert(sub.drop_last() =~= items@.subrange(0, i as int));
            }
            i += 1;
        }
        assert(items@.subrange(0, items@.len() as int) =~= items@);
        Ok(tys)
    }
}

proof fn lemma_symbol_absent(names: Seq<Seq<char>>, key: Seq<char>)
    requires
        forall|i: int| 0 <= i < names.len() ==> names[i] != key,
    ensures
        symbol_index(names, key) is None,
    decreases names.len(),
{
    if names.len() > 0 {
        assert forall|i: int| 0 <= i < names.drop_last().len() implies names.drop_last()[i] != key by {
            assert(names.drop_last()[i] == names[i]);
        }
        lemma_symbol_absent(names.drop_last(), key);
    }
}

/// The names of the built-in traits and types, in the order they are
/// registered.
pub open spec fn builtin_names() -> Seq<Seq<char>> {
    seq!["Copy"@, "Add"@, "Sub"@, "Mul"@, "Div"@, "Eq"@, "Ord"@, "bool"@, "u8"@, "u16"@, "string"@]
}

/// The symbol the table starts with at position `i`: the traits `Copy`,
/// `Add`, `Sub`, `Mul`, `Div`, `Eq` and `Ord`, then the types `bool` (with
/// `Copy` and `Eq`), `u8` and `u16` (with every trait) and `string` (with
/// `Eq`).
pub open spec fn builtin_symbol(i: int, k: SymbolKind) -> bool {
    if 0 <= i < 7 {
        k matches SymbolKind::Trait { name } && name@ == builtin_names()[i]
    } else if i == 7 {
        k matches SymbolKind::Type { name, traits } && name@ == "bool"@ && traits@ == seq![SymbolId(0), SymbolId(5)]
    } else if i == 8 || i == 9 {
        k matches SymbolKind::Type { name, traits } && name@ == builtin_names()[i] && traits@ == seq![
            SymbolId(0),
            SymbolId(1),
            SymbolId(2),
            SymbolId(3),
            SymbolId(4),
            SymbolId(5),
            SymbolId(6),
        ]
    } else if i == 10 {
        k matches SymbolKind::Type { name, traits } && name@ == "string"@ && traits@ == seq![SymbolId(5)]
    } else {
        false
    }
}

impl HIRContext {
    /// A table with the built-in traits and types.
    pub fn new() -> (r: Result<Self, CompileError>)
        ensures
            r matches Ok(c) && c.wf() && c.names() == builtin_names(),
            r matches Ok(c) && forall|i: int|
                0 <= i < c.symbols@.len() ==> !(#[trigger] c.symbols@[i] is Struct),
            r matches Ok(c) && c.symbols@.len() == 11 && forall|i: int|
                0 <= i < 11 ==> builtin_symbol(i, #[trigger] c.symbols@[i]),
    {
        proof {
            reveal_strlit("Copy");
            assert("Copy"@.len() == 4 && "Copy"@[0] == 'C');
            reveal_strlit("Add");
            assert("Add"@.len() == 3 && "Add"@[0] == 'A');
            reveal_strlit("Sub");
            assert("Sub"@.len() == 3 && "Sub"@[0] == 'S');
            reveal_strlit("Mul");
            assert("Mul"@.len() == 3 && "Mul"@[0] == 'M');
            reveal_strlit("Div");
            assert("Div"@.len() == 3 && "Div"@[0] == 'D');
            reveal_strlit("Eq");
            assert("Eq"@.len() == 2 && "Eq"@[0] == 'E');
            reveal_strlit("Ord");
            assert("Ord"@.len() == 3 && "Ord"@[0] == 'O');
            reveal_strlit("bool");
            assert("bool"@.len() == 4 && "bool"@[0] == 'b');
            reveal_strlit("u8");
            assert("u8"@.len() == 2 && "u8"@[0] == 'u');
            reveal_strlit("u16");
            assert("u16"@.len() == 3 && "u16"@[0] == 'u');
            reveal_strlit("string");
            assert("string"@.len() == 6 && "string"@[0] == 's');
        }
        let mut result = HIRContext::empty();
        proof {
            assert(result.names() =~= seq![]);
            assert(result.symbols@ =~= Seq::<SymbolKind>::empty());
        }
        proof {
            assert(result.names() =~= seq![]);
            lemma_symbol_absent(result.names(), "Copy"@);
        }
        let kind0 = SymbolKind::Trait { name: String::from_str("Copy") };
        let ghost g0 = kind0;
        let id0 = match result.register_key(String::from_str("Copy"), kind0) {
            Some(id) => id,
            None => {
                return Err(CompileError::unknown("failed to register built-in trait 'Copy'"));
            },
        };
        assert(id0 == SymbolId(0));
        assert(builtin_symbol(0, g0));
        proof {
            assert(result.names() =~= seq!["Copy"@]);
            lemma_symbol_absent(result.names(), "Add"@);
        }
        let kind1 = SymbolKind::Trait { name: String::from_str("Add") };
        let ghost g1 = kind1;
        let id1 = match result.register_key(String::from_str("Add"), kind1) {
            Some(id) => id,
            None => {
                return Err(CompileError::unknown("failed to register built-in trait 'Add'"));
            },
        };
        assert(id1 == SymbolId(1));
        assert(builtin_symbol(1, g1));
        proof {
            assert(result.names() =~= seq!["Copy"@, "Add"@]);
            lemma_symbol_absent(result.names(), "Sub"@);
        }
        let kind2 = SymbolKind::Trait { name: String::from_str("Sub") };
        let ghost g2 = kind2;
        let id2 = match result.register_key(String::from_str("Sub"), kind2) {
            Some(id) => id,
            None => {
                return Err(CompileError::unknown("failed to register built-in trait 'Sub'"));
            },
        };
        assert(id2 == SymbolId(2));
        assert(builtin_symbol(2, g2));
        proof {
            assert(result.names() =~= seq!["Copy"@, "Add"@, "Sub"@]);
            lemma_symbol_absent(result.names(), "Mul"@);
        }
        let kind3 = SymbolKind::Trait { name: String::from_str("Mul") };
        let ghost g3 = kind3;
        let id3 = match result.register_key(String::from_str("Mul"), kind3) {
            Some(id) => id,
            None => {
                return Err(CompileError::unknown("failed to register built-in trait 'Mul'"));
            },
        };
        assert(id3 == SymbolId(3));
        assert(builtin_symbol(3, g3));
        proof {
            assert(result.names() =~= seq!["Copy"@, "Add"@, "Sub"@, "Mul"@]);
            lemma_symbol_absent(result.names(), "Div"@);
        }
        let kind4 = SymbolKind::Trait { name: String::from_str("Div") };
        let ghost g4 = kind4;
        let id4 = match result.register_key(String::from_str("Div"), kind4) {
            Some(id) => id,
            None => {
                return Err(CompileError::unknown("failed to register built-in trait 'Div'"));
            },
        };
        assert(id4 == SymbolId(4));
        assert(builtin_symbol(4, g4));
        proof {
            assert(result.names() =~= seq!["Copy"@, "Add"@, "Sub"@, "Mul"@, "Div"@]);
            lemma_symbol_absent(result.names(), "Eq"@);
        }
        let kind5 = SymbolKind::Trait { name: String::from_str("Eq") };
        let ghost g5 = kind5;
        let id5 = match result.register_key(String::from_str("Eq"), kind5) {
            Some(id) => id,
            None => {
                return Err(CompileError::unknown("failed to register built-in trait 'Eq'"));
            },
        };
        assert(id5 == SymbolId(5));
        assert(builtin_symbol(5, g5));
        proof {
            assert(result.names() =~= seq!["Copy"@, "Add"@, "Sub"@, "Mul"@, "Div"@, "Eq"@]);
            lemma_symbol_absent(result.names(), "Ord"@);
        }
        let kind6 = SymbolKind::Trait { name: String::from_str("Ord") };
        let ghost g6 = kind6;
        let id6 = match result.register_key(String::from_str("Ord"), kind6) {
            Some(id) => id,
            None => {
                return Err(CompileError::unknown("failed to register built-in trait 'Ord'"));
            },
        };
        assert(id6 == SymbolId(6));
        assert(builtin_symbol(6, g6));
        let mut traits: Vec<SymbolId> = Vec::new();
        traits.push(id0);
        traits.push(id5);
        proof {
            assert(result.names() =~= seq!["Copy"@, "Add"@, "Sub"@, "Mul"@, "Div"@, "Eq"@, "Ord"@]);
            lemma_symbol_absent(result.names(), "bool"@);
        }
        let kind7 = SymbolKind::Type { name: String::from_str("bool"), traits };
        let ghost g7 = kind7;
        assert(builtin_symbol(7, g7)) by {
            assert(g7->Type_traits@ =~= seq![SymbolId(0), SymbolId(5)]);
        }
        if result.register_key(String::from_str("bool"), kind7).is_none() {
            return Err(CompileError::unknown("failed to register built-in type 'bool'"));
        }
        let mut traits: Vec<SymbolId> = Vec::new();
        traits.push(id0);
        traits.push(id1);
        traits.push(id2);
        traits.push(id3);
        traits.push(id4);
        traits.push(id5);
        traits.push(id6);
        proof {
            assert(result.names() =~= seq!["Copy"@, "Add"@, "Sub"@, "Mul"@, "Div"@, "Eq"@, "Ord"@, "bool"@]);
            lemma_symbol_absent(result.names(), "u8"@);
        }
        let kind8 = SymbolKind::Type { name: String::from_str("u8"), traits };
        let ghost g8 = kind8;
        assert(builtin_symbol(8, g8)) by {
            assert(g8->Type_traits@ =~= seq![SymbolId(0), SymbolId(1), SymbolId(2), SymbolId(3), SymbolId(4), SymbolId(5), SymbolId(6)]);
        }
        if result.register_key(String::from_str("u8"), kind8).is_none() {
            return Err(CompileError::unknown("failed to register built-in type 'u8'"));
        }
        let mut traits: Vec<SymbolId> = Vec::new();
        traits.push(id0);
        traits.push(id1);
        traits.push(id2);
        traits.push(id3);
        traits.push(id4);
        traits.push(id5);
        traits.push(id6);
        proof {
            assert(result.names() =~= seq!["Copy"@, "Add"@, "Sub"@, "Mul"@, "Div"@, "Eq"@, "Ord"@, "bool"@, "u8"@]);
            lemma_symbol_absent(result.names(), "u16"@);
        }
        let kind9 = SymbolKind::Type { name: String::from_str("u16"), traits };
        let ghost g9 = kind9;
        assert(builtin_symbol(9, g9)) by {
            assert(g9->Type_traits@ =~= seq![SymbolId(0), SymbolId(1), SymbolId(2), SymbolId(3), SymbolId(4), SymbolId(5), SymbolId(6)]);
        }
        if result.register_key(String::from_str("u16"), kind9).is_none() {
            return Err(CompileError::unknown("failed to register built-in type 'u16'"));
        }
        let mut traits: Vec<SymbolId> = Vec::new();
        traits.push(id5);
        proof {
            assert(result.names() =~= seq!["Copy"@, "Add"@, "Sub"@, "Mul"@, "Div"@, "Eq"@, "Ord"@, "bool"@, "u8"@, "u16"@]);
            lemma_symbol_absent(result.names(), "string"@);
        }
        let kind10 = SymbolKind::Type { name: String::from_str("string"), traits };
        let ghost g10 = kind10;
        assert(builtin_symbol(10, g10)) by {
            assert(g10->Type_traits@ =~= seq![SymbolId(5)]);
        }
        if result.register_key(String::from_str("string"), kind10).is_none() {
            return Err(CompileError::unknown("failed to register built-in type 'string'"));
        }
        assert(result.names() =~= builtin_names());
        assert(result.symbols@ =~= seq![g0, g1, g2, g3, g4, g5, g6, g7, g8, g9, g10]);
        proof {
            assert forall|i: int| 0 <= i < 11 implies builtin_symbol(i, #[trigger] result.symbols@[i]) by {
                if i == 0 { assert(result.symbols@[i] == g0); }
                else if i == 1 { assert(result.symbols@[i] == g1); }
                else if i == 2 { assert(result.symbols@[i] == g2); }
                else if i == 3 { assert(result.symbols@[i] == g3); }
                else if i == 4 { assert(result.symbols@[i] == g4); }
                else if i == 5 { assert(result.symbols@[i] == g5); }
                else if i == 6 { assert(result.symbols@[i] == g6); }
                else if i == 7 { assert(result.symbols@[i] == g7); }
                else if i == 8 { assert(result.symbols@[i] == g8); }
                else if i == 9 { assert(result.symbols@[i] == g9); }
                else { assert(result.symbols@[i] == g10); }
            }
        }
        Ok(result)
    }
}

impl HIRContext {
    /// Whether every symbol has one name and no name is used twice.
    pub fn is_wf(&self) -> (r: bool)
        ensures
            r == self.wf(),
    {
        if self.symbols_index.len() != self.symbols.len() {
            return false;
        }
        let n = self.symbols_index.len();
        let ghost names = self.names();
        let mut b: usize = 0;
        while b < n
            invariant
                n == self.symbols_index@.len(),
                names == self.names(),
                names.len() == n,
                b <= n,
                forall|x: int, y: int| 0 <= x < y < b ==> names[x] != names[y],
            decreases n - b,
        {
            let mut a: usize = 0;
            while a < b
                invariant
                    n == self.symbols_index@.len(),
                    names == self.names(),
                    names.len() == n,
                    a <= b < n,
                    forall|x: int, y: int| 0 <= x < y < b ==> names[x] != names[y],
                    forall|x: int| 0 <= x < a ==> names[x] != names[b as int],
                decreases b - a,
            {
                if same_text(self.symbols_index[a].as_str(), self.symbols_index[b].as_str()) {
                    assert(names[a as int] == names[b as int]);
                    return false;
                }
                a += 1;
            }
            b += 1;
        }
        true
    }
}

} // verus!
