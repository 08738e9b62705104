//! Diagnostics: what went wrong (or looks suspicious) and where.
use vstd::prelude::*;

use crate::common::Span;

verus! {

/// Whether a diagnostic stops the compilation.
#[derive(Debug, PartialEq, Eq, Structural, Clone, Copy)]
pub enum DiagnosticKind {
    Error,
    Warning,
}

/// Everything the compiler can report, one variant per diagnostic code.
#[derive(Debug, PartialEq, Eq, Clone)]
pub enum CompileError {
    /// B0001: an internal condition without a more specific diagnostic.
    Unknown { label: String },
    /// B0002: the entrypoint cannot be read.
    FileNotFound { path: String },
    /// B0003: an imported module cannot be found.
    ImportError { path: String, span: Span },
    /// B0004: a character that starts no token.
    UnexpectedToken { span: Span },
    /// B0005: tokens that do not form a program.
    ParseError { label: Vec<String>, span: Span },
    /// B0006: an attribute that is not supported here.
    InvalidAttribute { name: String, reason: String, span: Span },
    /// B0007: two symbols with one name.
    SymbolAlreadyExists { name: String, span: Span },
    /// B0008: a name that resolves to nothing.
    SymbolNotFound { name: String, span: Span },
    /// B0009: a symbol of the wrong kind.
    InvalidSymbol { name: String, span: Span },
    /// B0010: a struct that contains itself.
    RecursiveStruct { name: String, span: Span },
    /// B0011: a field index past the end of a struct.
    InvalidFieldIndex { name: String, index: usize, field_count: usize, span: Span },
    /// B0012: a stack that does not have the expected shape.
    InvalidStack {
        label: String,
        span: Span,
        additional_spans: Vec<Span>,
        expected_stack: Vec<String>,
        actual_stack: Vec<String>,
    },
    /// B0013: a word without instructions (a warning).
    EmptyWord { span: Span },
    /// B0014: an import nothing uses (a warning).
    UnusedImport { name: String, span: Span },
    /// B0015: the interpreter met an invalid condition.
    RuntimeError { label: String },
    /// B0016: a type that cannot be inferred.
    CannotInferType { label: String, span: Span },
    /// B0017: a string literal with a non-ASCII character.
    InvalidStringLiteral { span: Span },
    /// B0018: data that does not fit.
    DataOverflow { span: Span },
}

/// The number of the diagnostic code (`B0001` has number 1).
pub open spec fn error_code(error: CompileError) -> u16 {
    match error {
        CompileError::Unknown { .. } => 1,
        CompileError::FileNotFound { .. } => 2,
        CompileError::ImportError { .. } => 3,
        CompileError::UnexpectedToken { .. } => 4,
        CompileError::ParseError { .. } => 5,
        CompileError::InvalidAttribute { .. } => 6,
        CompileError::SymbolAlreadyExists { .. } => 7,
        CompileError::SymbolNotFound { .. } => 8,
        CompileError::InvalidSymbol { .. } => 9,
        CompileError::RecursiveStruct { .. } => 10,
        CompileError::InvalidFieldIndex { .. } => 11,
        CompileError::InvalidStack { .. } => 12,
        CompileError::EmptyWord { .. } => 13,
        CompileError::UnusedImport { .. } => 14,
        CompileError::RuntimeError { .. } => 15,
        CompileError::CannotInferType { .. } => 16,
        CompileError::InvalidStringLiteral { .. } => 17,
        CompileError::DataOverflow { .. } => 18,
    }
}

/// The source location a diagnostic points at, if it has one.
pub open spec fn error_span(error: CompileError) -> Option<Span> {
    match error {
        CompileError::ImportError { span, .. } => Some(span),
        CompileError::UnexpectedToken { span } => Some(span),
        CompileError::ParseError { span, .. } => Some(span),
        CompileError::InvalidAttribute { span, .. } => Some(span),
        CompileError::SymbolAlreadyExists { span, .. } => Some(span),
        CompileError::SymbolNotFound { span, .. } => Some(span),
        CompileError::InvalidSymbol { span, .. } => Some(span),
        CompileError::RecursiveStruct { span, .. } => Some(span),
        CompileError::InvalidFieldIndex { span, .. } => Some(span),
        CompileError::InvalidStack { span, .. } => Some(span),
        CompileError::EmptyWord { span } => Some(span),
        CompileError::UnusedImport { span, .. } => Some(span),
        CompileError::CannotInferType { span, .. } => Some(span),
        CompileError::InvalidStringLiteral { span } => Some(span),
        CompileError::DataOverflow { span } => Some(span),
        CompileError::Unknown { .. } => None,
        CompileError::FileNotFound { .. } => None,
        CompileError::RuntimeError { .. } => None,
    }
}

/// The title of each diagnostic code.
pub open spec fn error_title(code: u16) -> Seq<char> {
    if code == 1 {
        "Unknown Error"@
    } else if code == 2 {
        "File Not Found"@
    } else if code == 3 {
        "Import Error"@
    } else if code == 4 {
        "Unexpected Token"@
    } else if code == 5 {
        "Parse Error"@
    } else if code == 6 {
        "Invalid Attribute"@
    } else if code == 7 {
        "Symbol Already Exists"@
    } else if code == 8 {
        "Symbol Not Found"@
    } else if code == 9 {
        "Invalid Symbol"@
    } else if code == 10 {
        "Recursive Struct"@
    } else if code == 11 {
        "Invalid Field Index"@
    } else if code == 12 {
        "Invalid Stack"@
    } else if code == 13 {
        "Empty Word"@
    } else if code == 14 {
        "Unused Import"@
    } else if code == 15 {
        "Runtime Error"@
    } else if code == 16 {
        "Cannot Infer Type"@
    } else if code == 17 {
        "Invalid String Literal"@
    } else {
        "Data Overflow"@
    }
}

impl CompileError {
    pub fn span(&self) -> (r: Option<Span>)
        ensures
            r == error_span(*self),
    {
        match self {
            CompileError::ImportError { span, .. } => Some(*span),
            CompileError::UnexpectedToken { span } => Some(*span),
            CompileError::ParseError { span, .. } => Some(*span),
            CompileError::InvalidAttribute { span, .. } => Some(*span),
            CompileError::SymbolAlreadyExists { span, .. } => Some(*span),
            CompileError::SymbolNotFound { span, .. } => Some(*span),
            CompileError::InvalidSymbol { span, .. } => Some(*span),
            CompileError::RecursiveStruct { span, .. } => Some(*span),
            CompileError::InvalidFieldIndex { span, .. } => Some(*span),
            CompileError::InvalidStack { span, .. } => Some(*span),
            CompileError::EmptyWord { span } => Some(*span),
            CompileError::UnusedImport { span, .. } => Some(*span),
            CompileError::CannotInferType { span, .. } => Some(*span),
            CompileError::InvalidStringLiteral { span } => Some(*span),
            CompileError::DataOverflow { span } => Some(*span),
            CompileError::Unknown { .. } => None,
            CompileError::FileNotFound { .. } => None,
            CompileError::RuntimeError { .. } => None,
        }
    }

    pub fn code(&self) -> (r: u16)
        ensures
            r == error_code(*self),
            1 <= r <= 18,
    {
        match self {
            CompileError::Unknown { .. } => 1,
            CompileError::FileNotFound { .. } => 2,
            CompileError::ImportError { .. } => 3,
            CompileError::UnexpectedToken { .. } => 4,
            CompileError::ParseError { .. } => 5,
            CompileError::InvalidAttribute { .. } => 6,
            CompileError::SymbolAlreadyExists { .. } => 7,
            CompileError::SymbolNotFound { .. } => 8,
            CompileError::InvalidSymbol { .. } => 9,
            CompileError::RecursiveStruct { .. } => 10,
            CompileError::InvalidFieldIndex { .. } => 11,
            CompileError::InvalidStack { .. } => 12,
            CompileError::EmptyWord { .. } => 13,
            CompileError::UnusedImport { .. } => 14,
            CompileError::RuntimeError { .. } => 15,
            CompileError::CannotInferType { .. } => 16,
            CompileError::InvalidStringLiteral { .. } => 17,
            CompileError::DataOverflow { .. } => 18,
        }
    }

    /// The title of the diagnostic's code.
    pub fn title(&self) -> (r: String)
        ensures
            r@ == error_title(error_code(*self)),
    {
        let code = self.code();
        proof {
            reveal_strlit("Unknown Error");
            reveal_strlit("File Not Found");
            reveal_strlit("Import Error");
            reveal_strlit("Unexpected Token");
            reveal_strlit("Parse Error");
            reveal_strlit("Invalid Attribute");
            reveal_strlit("Symbol Already Exists");
            reveal_strlit("Symbol Not Found");
            reveal_strlit("Invalid Symbol");
            reveal_strlit("Recursive Struct");
            reveal_strlit("Invalid Field Index");
            reveal_strlit("Invalid Stack");
            reveal_strlit("Empty Word");
            reveal_strlit("Unused Import");
            reveal_strlit("Runtime Error");
            reveal_strlit("Cannot Infer Type");
            reveal_strlit("Invalid String Literal");
            reveal_strlit("Data Overflow");
        }
        if code == 1 {
            String::from_str("Unknown Error")
        } else if code == 2 {
            String::from_str("File Not Found")
        } else if code == 3 {
            String::from_str("Import Error")
        } else if code == 4 {
            String::from_str("Unexpected Token")
        } else if code == 5 {
            String::from_str("Parse Error")
        } else if code == 6 {
            String::from_str("Invalid Attribute")
        } else if code == 7 {
            String::from_str("Symbol Already Exists")
        } else if code == 8 {
            String::from_str("Symbol Not Found")
        } else if code == 9 {
            String::from_str("Invalid Symbol")
        } else if code == 10 {
            String::from_str("Recursive Struct")
        } else if code == 11 {
            String::from_str("Invalid Field Index")
        } else if code == 12 {
            String::from_str("Invalid Stack")
        } else if code == 13 {
            String::from_str("Empty Word")
        } else if code == 14 {
            String::from_str("Unused Import")
        } else if code == 15 {
            String::from_str("Runtime Error")
        } else if code == 16 {
            String::from_str("Cannot Infer Type")
        } else if code == 17 {
            String::from_str("Invalid String Literal")
        } else {
            String::from_str("Data Overflow")
        }
    }

    /// Builds an `Unknown` diagnostic with a label.
    pub fn unknown(label: &str) -> (r: CompileError)
        ensures
            r matches CompileError::Unknown { label: l } && l@ == label@,
    {
        CompileError::Unknown { label: String::from_str(label) }
    }
}

/// One reported diagnostic.
#[derive(Debug, PartialEq, Eq, Clone)]
pub struct Diagnostic {
    pub kind: DiagnosticKind,
    pub error: CompileError,
}

/// The diagnostics a stage (or the whole pipeline) reported, in order, and
/// whether one of them stops the compilation.
#[derive(Debug)]
pub struct Diagnostics {
    pub errors: Vec<Diagnostic>,
    pub fatal: bool,
}

/// Whether one of the diagnostics is an error.
pub open spec fn has_error(items: Seq<Diagnostic>) -> bool {
    exists|i: int| 0 <= i < items.len() && #[trigger] items[i].kind == DiagnosticKind::Error
}

impl Diagnostics {
    pub fn new() -> (r: Diagnostics)
        ensures
            r.errors@.len() == 0,
            !r.fatal,
    {
        Diagnostics { errors: Vec::new(), fatal: false }
    }

    /// Reports an error; the compilation will not go on.
    pub fn emit_fatal(&mut self, error: CompileError)
        ensures
            final(self).fatal,
            final(self).errors@ == old(self).errors@.push(
                Diagnostic { kind: DiagnosticKind::Error, error },
            ),
    {
        self.fatal = true;
        self.errors.push(Diagnostic { kind: DiagnosticKind::Error, error });
    }

    /// Reports a warning; the compilation goes on.
    pub fn emit_warning(&mut self, error: CompileError)
        ensures
            final(self).fatal == old(self).fatal,
            final(self).errors@ == old(self).errors@.push(
                Diagnostic { kind: DiagnosticKind::Warning, error },
            ),
    {
        self.errors.push(Diagnostic { kind: DiagnosticKind::Warning, error });
    }

    /// Adds the diagnostics of `other` after those already here.
    pub fn append(&mut self, other: Diagnostics)
        ensures
            final(self).fatal == (old(self).fatal || other.fatal),
            final(self).errors@ == old(self).errors@ + other.errors@,
    {
        let mut other = other;
        self.fatal = self.fatal || other.fatal;
        self.errors.append(&mut other.errors);
    }

    /// Whether an error (not only warnings) was reported.
    pub fn has_errors(&self) -> (r: bool)
        ensures
            r == has_error(self.errors@),
    {
        let mut i: usize = 0;
        while i < self.errors.len()
            invariant
                i <= self.errors@.len(),
                forall|j: int| 0 <= j < i ==> self.errors@[j].kind != DiagnosticKind::Error,
            decreases self.errors@.len() - i,
        {
            if self.errors[i].kind == DiagnosticKind::Error {
                assert(self.errors@[i as int].kind == DiagnosticKind::Error);
                return true;
            }
            i += 1;
        }
        false
    }
}

/// Every diagnostic is an error, and the diagnostics are fatal exactly when
/// there is one.
pub open spec fn errors_only(d: Diagnostics) -> bool {
    &&& d.fatal == (d.errors@.len() > 0)
    &&& forall|i: int| 0 <= i < d.errors@.len() ==> (#[trigger] d.errors@[i]).kind == DiagnosticKind::Error
}

pub proof fn lemma_emit_keeps_errors_only(before: Diagnostics, after: Diagnostics, e: CompileError)
    requires
        errors_only(before),
        after.fatal,
        after.errors@ == before.errors@.push(Diagnostic { kind: DiagnosticKind::Error, error: e }),
    ensures
        errors_only(after),
{
    assert forall|i: int| 0 <= i < after.errors@.len() implies (#[trigger] after.errors@[i]).kind
        == DiagnosticKind::Error by {
        if i < before.errors@.len() {
            assert(after.errors@[i] == before.errors@[i]);
        }
    }
}

} // verus!
