//! Source bookkeeping shared by all stages: source ids, spans, compile
//! targets, the compile context and dotted paths.
use vstd::prelude::*;

use crate::text::{
    chars_of, copy_string, lemma_views_push, free_of, join_seq, join_strings, lemma_join_split, lemma_split_join,
    same_text, split_seq, split_string, string_from_chars, string_views,
};

verus! {

/// Identifies one source file of a compilation.
#[derive(Debug, PartialEq, Eq, Structural, Clone, Copy, PartialOrd, Ord, Hash)]
pub struct SourceId(pub usize);

/// A range of characters `[start, end)` in one source file.
#[derive(Debug, PartialEq, Eq, Structural, Clone, Copy)]
pub struct Span {
    pub source_id: SourceId,
    pub start: usize,
    pub end: usize,
}

/// A value together with the span it was read from.
#[derive(Debug)]
pub struct Spanned<T> {
    pub value: T,
    pub span: Span,
}

impl<T> Spanned<T> {
    pub fn new(value: T, span: Span) -> (r: Self)
        ensures
            r.value == value,
            r.span == span,
    {
        Spanned { value, span }
    }
}

/// One source file: where it was read from and what it holds.
#[derive(Debug)]
pub struct Source {
    pub path: String,
    pub content: String,
}

/// The machine a program is compiled for.
#[derive(Debug, PartialEq, Eq, Structural, Clone, Copy)]
pub enum CompileTarget {
    Interpreter,
    Z80UnknownCpm,
}

/// The name by which a target is written in `#[target = "..."]`.
pub open spec fn target_name(target: CompileTarget) -> Seq<char> {
    match target {
        CompileTarget::Interpreter => "interpreter"@,
        CompileTarget::Z80UnknownCpm => "z80-unknown-cpm"@,
    }
}

impl CompileTarget {
    /// The target named `value`, if there is one.
    pub fn from_name(value: &str) -> (r: Option<CompileTarget>)
        ensures
            r matches Some(t) ==> target_name(t) == value@,
            r is None ==> value@ != target_name(CompileTarget::Interpreter) && value@
                != target_name(CompileTarget::Z80UnknownCpm),
    {
        proof {
            reveal_strlit("interpreter");
            reveal_strlit("z80-unknown-cpm");
        }
        if same_text(value, "interpreter") {
            Some(CompileTarget::Interpreter)
        } else if same_text(value, "z80-unknown-cpm") {
            Some(CompileTarget::Z80UnknownCpm)
        } else {
            None
        }
    }

    /// The name of the target.
    pub fn name(&self) -> (r: String)
        ensures
            r@ == target_name(*self),
    {
        match self {
            CompileTarget::Interpreter => String::from_str("interpreter"),
            CompileTarget::Z80UnknownCpm => String::from_str("z80-unknown-cpm"),
        }
    }

    /// The target used when none is asked for.
    pub fn default_target() -> (r: CompileTarget)
        ensures
            r == CompileTarget::Interpreter,
    {
        CompileTarget::Interpreter
    }
}

/// The first index of a source read from `path`, if any.
pub open spec fn source_index(sources: Seq<Source>, path: Seq<char>) -> Option<int>
    decreases sources.len(),
{
    if sources.len() == 0 {
        None
    } else {
        match source_index(sources.drop_last(), path) {
            Some(i) => Some(i),
            None => if sources.last().path@ == path {
                Some(sources.len() - 1)
            } else {
                None
            },
        }
    }
}

pub proof fn lemma_source_index(sources: Seq<Source>, path: Seq<char>)
    ensures
        source_index(sources, path) matches Some(i) ==> 0 <= i < sources.len() && sources[i].path@
            == path && forall|j: int| 0 <= j < i ==> sources[j].path@ != path,
        source_index(sources, path) is None ==> forall|j: int|
            0 <= j < sources.len() ==> sources[j].path@ != path,
    decreases sources.len(),
{
    if sources.len() > 0 {
        lemma_source_index(sources.drop_last(), path);
        let d = sources.drop_last();
        assert forall|j: int| 0 <= j < d.len() implies d[j] == sources[j] by {}
    }
}

/// The sources of one compilation and the target it is for.
#[derive(Debug)]
pub struct CompileContext {
    /// The sources, indexed by their `SourceId`.
    pub sources: Vec<Source>,
    pub target: CompileTarget,
}

impl CompileContext {
    pub fn new(target: CompileTarget) -> (r: Self)
        ensures
            r.target == target,
            r.sources@.len() == 0,
    {
        CompileContext { sources: Vec::new(), target }
    }

    /// Registers a source and returns its id; a path that was added before
    /// keeps its first id and its first content.
    pub fn add_source(&mut self, path: String, content: String) -> (r: SourceId)
        ensures
            final(self).target == old(self).target,
            match source_index(old(self).sources@, path@) {
                Some(i) => r.0 == i && final(self).sources@ == old(self).sources@,
                None => r.0 == old(self).sources@.len() && final(self).sources@ == old(
                    self,
                ).sources@.push(Source { path, content }),
            },
            source_index(final(self).sources@, path@) == Some(r.0 as int),
    {
        let mut i: usize = 0;
        while i < self.sources.len()
            invariant
                self.sources@ == old(self).sources@,
                self.target == old(self).target,
                i <= self.sources@.len(),
                forall|j: int| 0 <= j < i ==> self.sources@[j].path@ != path@,
            decreases self.sources@.len() - i,
        {
            if same_text(self.sources[i].path.as_str(), path.as_str()) {
                proof {
                    lemma_source_index(self.sources@, path@);
                    match source_index(self.sources@, path@) {
                        Some(k) => {
                            if k < i {
                                assert(self.sources@[k].path@ != path@);
                            }
                            if k > i {
                                assert(self.sources@[i as int].path@ == path@);
                            }
                        },
                        None => {
                            assert(self.sources@[i as int].path@ == path@);
                        },
                    }
                }
                return SourceId(i);
            }
            i += 1;
        }
        let id = SourceId(self.sources.len());
        let ghost old_sources = self.sources@;
        self.sources.push(Source { path, content });
        proof {
            lemma_source_index(old_sources, path@);
            lemma_source_index(self.sources@, path@);
            assert(source_index(old_sources, path@) is None) by {
                if source_index(old_sources, path@) is Some {
                    let k = source_index(old_sources, path@).unwrap();
                    assert(old_sources[k].path@ == path@);
                }
            }
            assert(self.sources@.drop_last() =~= old_sources);
        }
        id
    }
}

/// A name made of segments separated by dots, such as `std.io.print`.
#[derive(Debug)]
pub struct DottedPath(pub Vec<String>);

impl View for DottedPath {
    type V = Seq<Seq<char>>;

    open spec fn view(&self) -> Seq<Seq<char>> {
        string_views(self.0@)
    }
}

impl DottedPath {
    /// A copy of the path with `name` added as a last segment.
    pub fn append(&self, name: &str) -> (r: Self)
        ensures
            r@ == self@.push(name@),
    {
        let mut v: Vec<String> = Vec::new();
        let mut i: usize = 0;
        while i < self.0.len()
            invariant
                i <= self.0@.len(),
                string_views(v@) == self@.subrange(0, i as int),
            decreases self.0@.len() - i,
        {
            let ghost old_v = v@;
            v.push(copy_string(&self.0[i]));
            proof {
                lemma_views_push(old_v, self.0@[i as int]);
                assert(self@[i as int] == self.0@[i as int]@);
                assert(string_views(v@) =~= self@.subrange(0, i + 1));
            }
            i += 1;
        }
        let last = string_from_chars(chars_of(name).as_slice());
        let ghost old_v = v@;
        v.push(last);
        proof {
            lemma_views_push(old_v, last);
            assert(self@.subrange(0, self@.len() as int) =~= self@);
        }
        let r = DottedPath(v);
        assert(r@ =~= self@.push(name@));
        r
    }

    /// The segments of this path followed by those of `other`.
    pub fn extend(&self, other: &Self) -> (r: Self)
        ensures
            r@ == self@ + other@,
    {
        let mut v: Vec<String> = Vec::new();
        let mut i: usize = 0;
        while i < self.0.len()
            invariant
                i <= self.0@.len(),
                string_views(v@) == self@.subrange(0, i as int),
            decreases self.0@.len() - i,
        {
            let ghost old_v = v@;
            v.push(copy_string(&self.0[i]));
            proof {
                lemma_views_push(old_v, self.0@[i as int]);
                assert(self@[i as int] == self.0@[i as int]@);
                assert(string_views(v@) =~= self@.subrange(0, i + 1));
            }
            i += 1;
        }
        let mut j: usize = 0;
        while j < other.0.len()
            invariant
                i == self@.len(),
                j <= other.0@.len(),
                string_views(v@) == self@ + other@.subrange(0, j as int),
            decreases other.0@.len() - j,
        {
            let ghost old_v = v@;
            v.push(copy_string(&other.0[j]));
            proof {
                lemma_views_push(old_v, other.0@[j as int]);
                assert(other@[j as int] == other.0@[j as int]@);
                assert(string_views(v@) =~= self@ + other@.subrange(0, j + 1));
            }
            j += 1;
        }
        let r = DottedPath(v);
        assert(other@.subrange(0, other@.len() as int) =~= other@);
        assert(r@ =~= self@ + other@);
        r
    }

    /// Splits `path` at every dot.
    pub fn parse(path: &str) -> (r: Self)
        ensures
            r@ == split_seq(path@, '.'),
    {
        DottedPath(split_string(path, '.'))
    }

    pub fn len(&self) -> (r: usize)
        ensures
            r == self@.len(),
    {
        self.0.len()
    }

    pub fn is_empty(&self) -> (r: bool)
        ensures
            r == (self@.len() == 0),
    {
        self.0.len() == 0
    }

    /// The first segment, if there is one.
    pub fn first(&self) -> (r: Option<&str>)
        ensures
            r matches Some(s) ==> self@.len() > 0 && s@ == self@[0],
            r is None ==> self@.len() == 0,
    {
        if self.0.len() == 0 {
            None
        } else {
            Some(self.0[0].as_str())
        }
    }

    /// The segments joined with dots.
    pub fn to_dotted_string(&self) -> (r: String)
        ensures
            r@ == join_seq(self@, '.'),
    {
        join_strings(&self.0, '.')
    }

    /// Compares two paths segment by segment.
    pub fn same_path(&self, other: &Self) -> (r: bool)
        ensures
            r == (self@ == other@),
    {
        if self.0.len() != other.0.len() {
            return false;
        }
        let mut i: usize = 0;
        while i < self.0.len()
            invariant
                self@.len() == other@.len(),
                i <= self@.len(),
                forall|j: int| 0 <= j < i ==> self@[j] == other@[j],
            decreases self@.len() - i,
        {
            if !same_text(self.0[i].as_str(), other.0[i].as_str()) {
                assert(self@[i as int] == self.0@[i as int]@);
                assert(other@[i as int] == other.0@[i as int]@);
                return false;
            }
            assert(self@[i as int] == self.0@[i as int]@);
            assert(other@[i as int] == other.0@[i as int]@);
            i += 1;
        }
        assert(self@ =~= other@);
        true
    }

    /// A copy of the path.
    pub fn copy(&self) -> (r: Self)
        ensures
            r@ == self@,
            r.0@ == self.0@,
    {
        DottedPath(crate::text::copy_strings(&self.0))
    }

    /// Whether the path starts with the segment `name`.
    pub fn starts_with_segment(&self, name: &str) -> (r: bool)
        ensures
            r == (self@.len() > 0 && self@[0] == name@),
    {
        match self.first() {
            Some(first) => same_text(first, name),
            None => false,
        }
    }
}

/// Rendering a path with dots and splitting it again gives the path back,
/// as long as it has a segment and no segment holds a dot.
pub proof fn lemma_dotted_path_roundtrip(segments: Seq<Seq<char>>)
    requires
        segments.len() >= 1,
        forall|i: int| 0 <= i < segments.len() ==> free_of(#[trigger] segments[i], '.'),
    ensures
        split_seq(join_seq(segments, '.'), '.') == segments,
{
    lemma_split_join(segments, '.');
}

/// Splitting a text at its dots and joining the parts again gives the text back.
pub proof fn lemma_dotted_text_roundtrip(text: Seq<char>)
    ensures
        join_seq(split_seq(text, '.'), '.') == text,
{
    lemma_join_split(text, '.');
}

} // verus!
