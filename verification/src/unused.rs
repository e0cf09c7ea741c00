//! What the compiler reports as unused.
use vstd::prelude::*;

verus! {

/// The kind of item that is unused.
#[derive(Clone, Copy, Debug, PartialEq, Eq, Structural)]
pub enum UnusedDiagnosticKind {
    Constant,
    Static,
    Function,
    Struct,
    Enum,
    Union,
    TypeAlias,
    AssociatedFunction,
    MacroDefinition,
}

/// Where the compiler points: the file, as a path in its normal spelling, and the
/// line, counted from one.
#[derive(Debug)]
pub struct DiagnosticSpan {
    pub file_name: String,
    pub line_start: usize,
}

/// An unused item.
#[derive(Debug)]
pub struct UnusedDiagnostic {
    pub kind: UnusedDiagnosticKind,
    pub ident: String,
    pub span: DiagnosticSpan,
}

pub struct DiagnosticModel {
    pub kind: UnusedDiagnosticKind,
    pub ident: Seq<char>,
    pub file_name: Seq<char>,
    pub line: usize,
}

impl View for UnusedDiagnostic {
    type V = DiagnosticModel;

    open spec fn view(&self) -> DiagnosticModel {
        DiagnosticModel {
            kind: self.kind,
            ident: self.ident@,
            file_name: self.span.file_name@,
            line: self.span.line_start,
        }
    }
}

pub open spec fn diagnostic_models(diagnostics: Seq<UnusedDiagnostic>) -> Seq<DiagnosticModel> {
    diagnostics.map_values(|diagnostic: UnusedDiagnostic| diagnostic@)
}

/// What an item has to be to be the one that is meant: of a kind, of a name,
/// and, where a line is given, on that line.
pub struct Wanted {
    pub kind: UnusedDiagnosticKind,
    pub ident: Seq<char>,
    pub line: Option<usize>,
}

pub open spec fn wanted(diagnostic: (UnusedDiagnosticKind, String, Option<usize>)) -> Wanted {
    Wanted { kind: diagnostic.0, ident: diagnostic.1@, line: diagnostic.2 }
}

pub open spec fn all_wanted(
    diagnostics: Seq<(UnusedDiagnosticKind, String, Option<usize>)>,
) -> Seq<Wanted> {
    diagnostics.map_values(|diagnostic: (UnusedDiagnosticKind, String, Option<usize>)| wanted(diagnostic))
}

/// What diagnostics mean is of their kinds, of their names and on their lines,
/// in their order.
pub proof fn law_all_wanted(diagnostics: Seq<(UnusedDiagnosticKind, String, Option<usize>)>)
    ensures
        all_wanted(diagnostics).len() == diagnostics.len(),
        forall|i: int|
            0 <= i < diagnostics.len() ==> (#[trigger] all_wanted(diagnostics)[i]).kind
                == diagnostics[i].0 && all_wanted(diagnostics)[i].ident == diagnostics[i].1@
                && all_wanted(diagnostics)[i].line == diagnostics[i].2,
{
}

} // verus!
