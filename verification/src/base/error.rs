use vstd::prelude::*;

use crate::base::Pos;

verus! {

#[verifier::external_type_specification]
#[verifier::external_body]
pub struct ExJsonError(serde_json::Error);

/// Errors found while checking the structure of a circuit.
#[derive(Clone, Copy, Debug, PartialEq, Eq, Structural)]
pub enum CircuitError {
    /// A wire whose source and destination are the same cell.
    SelfLoop { src: Pos, dst: Pos },
    /// A wire whose source is not a cell.
    WireSrcNotFound(Pos),
    /// A wire whose destination is not a cell.
    WireDstNotFound(Pos),
    /// Two wires with the same source and destination.
    DuplicateWire { src: Pos, dst: Pos },
    /// An input component whose target cell has incoming wires.
    InputTargetHasIncomingWires(Pos),
    /// Two input components with the same target.
    DuplicateInputTarget(Pos),
    /// A generator with an empty pattern.
    EmptyGeneratorPattern(Pos),
    /// Two output components with the same target.
    DuplicateOutputTarget(Pos),
    /// A tester with an empty expected pattern.
    EmptyTesterPattern(Pos),
    /// Module ports that do not form one contiguous column.
    InvalidPortColumn,
    /// A module whose output column is not to the right of its input column.
    ModuleOutputBeforeInput,
    /// A module output cell that has incoming wires or is an input target.
    ModuleOutputHasIncomingWires(Pos),
    /// Two module outputs on the same cell.
    DuplicateModuleOutput(Pos),
    /// A sub-circuit input cell that has incoming wires.
    SubInputHasIncomingWires(Pos),
    /// A sub-circuit whose output column is not to the right of its input column.
    SubOutputBeforeSubInput,
    /// A module with a number of inputs other than its sub-circuit's.
    SubInputCountMismatch { expected: usize, actual: usize },
    /// A module with a number of outputs other than its sub-circuit's.
    SubOutputCountMismatch { expected: usize, actual: usize },
}

/// Errors in the text of a wire kind or of a pattern.
#[derive(Clone, Debug, PartialEq, Eq)]
pub enum FormatError {
    /// A wire kind other than `positive` or `negative`.
    InvalidWireKind(String),
    /// A pattern character other than `0` or `1`.
    InvalidPatternChar(char),
    /// An expected-pattern character other than `0`, `1` or `x`.
    InvalidExpectedPatternChar(char),
}

/// What a format error is.
pub enum FormatErrorView {
    InvalidWireKind(Seq<char>),
    InvalidPatternChar(char),
    InvalidExpectedPatternChar(char),
}

impl View for FormatError {
    type V = FormatErrorView;

    open spec fn view(&self) -> FormatErrorView {
        match self {
            FormatError::InvalidWireKind(s) => FormatErrorView::InvalidWireKind(s@),
            FormatError::InvalidPatternChar(c) => FormatErrorView::InvalidPatternChar(*c),
            FormatError::InvalidExpectedPatternChar(c) => FormatErrorView::InvalidExpectedPatternChar(
                *c,
            ),
        }
    }
}

/// What a parse error is; a JSON syntax error is only told apart by its kind.
pub enum ParseErrorView {
    Format(FormatErrorView),
    Json,
    Circuit(CircuitError),
    CircularDependency(Seq<char>),
    SubCircuitNotFound(Seq<char>),
}

/// Errors while reading a circuit description.
#[derive(Debug)]
pub enum ParseError {
    /// A wire kind or pattern was malformed.
    Format(FormatError),
    /// The JSON text itself was malformed.
    Json(serde_json::Error),
    /// The circuit structure was invalid.
    Circuit(CircuitError),
    /// Sub-circuits whose dependencies cannot be ordered; their names joined by `, `.
    CircularDependency(String),
    /// A module naming a sub-circuit that is not defined.
    SubCircuitNotFound(String),
}

impl View for ParseError {
    type V = ParseErrorView;

    open spec fn view(&self) -> ParseErrorView {
        match self {
            ParseError::Format(e) => ParseErrorView::Format(e@),
            ParseError::Json(_) => ParseErrorView::Json,
            ParseError::Circuit(e) => ParseErrorView::Circuit(*e),
            ParseError::CircularDependency(s) => ParseErrorView::CircularDependency(s@),
            ParseError::SubCircuitNotFound(s) => ParseErrorView::SubCircuitNotFound(s@),
        }
    }
}

/// Errors while running a simulation.
#[derive(Clone, Copy, Debug, PartialEq, Eq, Structural)]
pub enum SimulationError {
    /// The position is not a cell of the circuit.
    UnknownCell(Pos),
}

} // verus!
