//! What lowering knows of the program: the words it instantiated and the
//! types it laid out.
use vstd::prelude::*;

use crate::stages::lower::ir::IRType;
use crate::stages::semantic::context::SymbolId;
use crate::stages::semantic::hir::{HIRType, TypeView, same_types, types_view};

verus! {

#[derive(Debug, Clone, Copy, PartialEq, Eq, Structural)]
pub struct WordId(pub usize);

impl WordId {
    pub fn id(&self) -> (r: usize)
        ensures
            r == self.0,
    {
        self.0
    }
}

#[derive(Debug, Clone, Copy, PartialEq, Eq, Structural)]
pub struct TypeId(pub usize);

impl TypeId {
    pub fn id(&self) -> (r: usize)
        ensures
            r == self.0,
    {
        self.0
    }
}

/// A word of the program instantiated for type arguments.
#[derive(Debug)]
pub struct WordIRInfo {
    pub name: String,
    pub source_word: SymbolId,
    pub type_args: Vec<HIRType>,
}

/// The words instantiated, the symbols the machine provides, and the types
/// laid out, by id.
#[derive(Debug)]
pub struct IRContext {
    pub words: Vec<WordIRInfo>,
    pub external_symbols: Vec<(SymbolId, String)>,
    pub symbol_id_to_type_id: Vec<(SymbolId, TypeId)>,
    pub types: Vec<IRType>,
}

/// The first instantiation of `source` for these type arguments.
pub open spec fn word_position(words: Seq<WordIRInfo>, source: SymbolId, args: Seq<TypeView>) -> Option<
    int,
>
    decreases words.len(),
{
    if words.len() == 0 {
        None
    } else {
        match word_position(words.drop_last(), source, args) {
            Some(i) => Some(i),
            None => if words.last().source_word == source && types_view(words.last().type_args@)
                == args {
                Some(words.len() - 1)
            } else {
                None
            },
        }
    }
}

/// Two instantiations of one word for the same type arguments.
pub open spec fn same_instance(a: WordIRInfo, b: WordIRInfo) -> bool {
    a.source_word == b.source_word && types_view(a.type_args@) == types_view(b.type_args@)
}

/// No word is instantiated twice for the same type arguments.
pub open spec fn instances_distinct(words: Seq<WordIRInfo>) -> bool {
    forall|i: int, j: int| 0 <= i < j < words.len() ==> !same_instance(#[trigger] words[i], #[trigger] words[j])
}

proof fn lemma_word_position_none(words: Seq<WordIRInfo>, source: SymbolId, args: Seq<TypeView>)
    requires
        word_position(words, source, args) is None,
    ensures
        forall|i: int|
            0 <= i < words.len() ==> !(#[trigger] words[i].source_word == source && types_view(
                words[i].type_args@,
            ) == args),
    decreases words.len(),
{
    if words.len() > 0 {
        lemma_word_position_none(words.drop_last(), source, args);
        assert forall|i: int| 0 <= i < words.len() implies !(#[trigger] words[i].source_word == source
            && types_view(words[i].type_args@) == args) by {
            if i < words.len() - 1 {
                assert(words.drop_last()[i] == words[i]);
            }
        }
    }
}

/// The type a symbol was last registered with.
pub open spec fn type_of_symbol(pairs: Seq<(SymbolId, TypeId)>, symbol: SymbolId) -> Option<TypeId>
    decreases pairs.len(),
{
    if pairs.len() == 0 {
        None
    } else if pairs.last().0 == symbol {
        Some(pairs.last().1)
    } else {
        type_of_symbol(pairs.drop_last(), symbol)
    }
}

impl IRContext {
    pub fn new() -> (r: Self)
        ensures
            r.words@.len() == 0,
            r.external_symbols@.len() == 0,
            r.symbol_id_to_type_id@.len() == 0,
            r.types@.len() == 0,
    {
        IRContext {
            words: Vec::new(),
            external_symbols: Vec::new(),
            symbol_id_to_type_id: Vec::new(),
            types: Vec::new(),
        }
    }

    /// The instantiation of a word for these type arguments, if there is
    /// one.
    pub fn get_word_id(&self, source_word: SymbolId, type_args: &Vec<HIRType>) -> (r: Option<WordId>)
        ensures
            r matches Some(id) ==> word_position(self.words@, source_word, types_view(type_args@))
                == Some(id.0 as int) && id.0 < self.words@.len(),
            r is None ==> word_position(self.words@, source_word, types_view(type_args@)) is None,
    {
        let mut i: usize = 0;
        let ghost args = types_view(type_args@);
        while i < self.words.len()
            invariant
                i <= self.words@.len(),
                args == types_view(type_args@),
                word_position(self.words@.subrange(0, i as int), source_word, args) is None,
            decreases self.words@.len() - i,
        {
            let w = &self.words[i];
            let ghost sub = self.words@.subrange(0, i + 1);
            assert(sub.drop_last() =~= self.words@.subrange(0, i as int));
            if w.source_word.0 == source_word.0 && same_types(&w.type_args, type_args) {
                proof {
                    lemma_word_position_prefix(self.words@, source_word, args, i + 1);
                }
                return Some(WordId(i));
            }
            i += 1;
        }
        assert(self.words@.subrange(0, self.words@.len() as int) =~= self.words@);
        None
    }

    /// Records an instantiation; `None` where it is recorded already. A
    /// recorded instantiation is found again by `get_word_id`.
    pub fn register_word(&mut self, word: WordIRInfo) -> (r: Option<WordId>)
        ensures
            word_position(old(self).words@, word.source_word, types_view(word.type_args@)) is Some
                ==> r is None && *final(self) == *old(self),
            word_position(old(self).words@, word.source_word, types_view(word.type_args@)) is None
                ==> r == Some(WordId(old(self).words@.len() as usize)) && final(self).words@ == old(
                self,
            ).words@.push(word),
            r matches Some(id) ==> word_position(
                final(self).words@,
                word.source_word,
                types_view(word.type_args@),
            ) == Some(id.0 as int),
            instances_distinct(old(self).words@) ==> instances_distinct(final(self).words@),
            final(self).types == old(self).types,
            final(self).symbol_id_to_type_id == old(self).symbol_id_to_type_id,
            final(self).external_symbols == old(self).external_symbols,
    {
        if self.get_word_id(word.source_word, &word.type_args).is_some() {
            return None;
        }
        let id = WordId(self.words.len());
        let ghost before = self.words@;
        proof {
            lemma_word_position_none(before, word.source_word, types_view(word.type_args@));
        }
        self.words.push(word);
        assert(self.words@.drop_last() =~= before);
        assert(self.words@.last() == word);
        Some(id)
    }

    /// Lays out a type for a symbol, under the next type id.
    pub fn register_type(&mut self, symbol_id: SymbolId, ty: IRType) -> (r: Option<TypeId>)
        ensures
            r == Some(TypeId(old(self).types@.len() as usize)),
            final(self).types@ == old(self).types@.push(ty),
            final(self).symbol_id_to_type_id@ == old(self).symbol_id_to_type_id@.push(
                (symbol_id, TypeId(old(self).types@.len() as usize)),
            ),
            type_of_symbol(final(self).symbol_id_to_type_id@, symbol_id) == r,
            final(self).words == old(self).words,
            final(self).external_symbols == old(self).external_symbols,
    {
        let type_id = TypeId(self.types.len());
        self.types.push(ty);
        self.symbol_id_to_type_id.push((symbol_id, type_id));
        proof {
            assert(self.symbol_id_to_type_id@.last() == (symbol_id, type_id));
        }
        Some(type_id)
    }

    /// Records the name the machine knows a symbol by.
    pub fn register_external_symbol(&mut self, symbol_id: SymbolId, symbol: String)
        ensures
            final(self).external_symbols@ == old(self).external_symbols@.push((symbol_id, symbol)),
            final(self).words == old(self).words,
            final(self).types == old(self).types,
            final(self).symbol_id_to_type_id == old(self).symbol_id_to_type_id,
    {
        self.external_symbols.push((symbol_id, symbol));
    }

    /// The type laid out under an id, if any.
    pub fn get_type(&self, type_id: TypeId) -> (r: Option<&IRType>)
        ensures
            r matches Some(t) ==> type_id.0 < self.types@.len() && *t == self.types@[type_id.0 as int],
            r is None ==> type_id.0 >= self.types@.len(),
    {
        if type_id.0 < self.types.len() {
            Some(&self.types[type_id.0])
        } else {
            None
        }
    }
}

proof fn lemma_word_position_prefix(words: Seq<WordIRInfo>, source: SymbolId, args: Seq<TypeView>, k: int)
    requires
        0 < k <= words.len(),
        word_position(words.subrange(0, k - 1), source, args) is None,
        words[k - 1].source_word == source,
        types_view(words[k - 1].type_args@) == args,
    ensures
        word_position(words, source, args) == Some(k - 1),
    decreases words.len(),
{
    if k == words.len() {
        assert(words.drop_last() =~= words.subrange(0, k - 1));
    } else {
        assert(words.drop_last().subrange(0, k - 1) =~= words.subrange(0, k - 1));
        lemma_word_position_prefix(words.drop_last(), source, args, k);
    }
}

} // verus!
