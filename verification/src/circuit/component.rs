use vstd::prelude::*;

use crate::base::Pos;
use crate::circuit::generator::{generator_value, Generator, GeneratorView};
use crate::circuit::tester::{Tester, TesterView};

verus! {

/// Common interface of the components that inject values into the circuit.
pub trait InputComponent {
    /// Whether the component can be asked for values.
    spec fn component_ok(&self) -> bool;

    /// The target cell.
    fn target(&self) -> Pos;

    /// The value injected at `tick`.
    fn value_at(&self, tick: u64) -> bool
        requires
            self.component_ok(),
    ;
}

/// Common interface of the components that observe the circuit.
pub trait OutputComponent {
    /// The observed cell.
    fn target(&self) -> Pos;
}

/// An input component.
#[derive(Debug, PartialEq, Eq)]
pub enum Input {
    Generator(Generator),
}

/// What an input component is.
pub enum InputView {
    Generator(GeneratorView),
}

/// The target cell of an input component.
pub open spec fn input_target(i: InputView) -> Pos {
    match i {
        InputView::Generator(g) => g.target,
    }
}

/// Whether an input component has a non-empty pattern.
pub open spec fn input_ok(i: InputView) -> bool {
    match i {
        InputView::Generator(g) => g.pattern.len() > 0,
    }
}

/// The value an input component injects at `tick`.
pub open spec fn input_value(i: InputView, tick: nat) -> bool {
    match i {
        InputView::Generator(g) => generator_value(g, tick),
    }
}

impl View for Input {
    type V = InputView;

    open spec fn view(&self) -> InputView {
        match self {
            Input::Generator(g) => InputView::Generator(g@),
        }
    }
}

impl Clone for Input {
    fn clone(&self) -> (r: Self)
        ensures
            r@ == self@,
    {
        match self {
            Input::Generator(g) => Input::Generator(g.clone()),
        }
    }
}

impl InputComponent for Input {
    open spec fn component_ok(&self) -> bool {
        input_ok(self@)
    }

    fn target(&self) -> (p: Pos)
        ensures
            p == input_target(self@),
    {
        match self {
            Input::Generator(generator) => generator.target(),
        }
    }

    fn value_at(&self, tick: u64) -> (v: bool)
        ensures
            v == input_value(self@, tick as nat),
    {
        assert(self.component_ok() == input_ok(self@));
        match self {
            Input::Generator(generator) => generator.value_at(tick),
        }
    }
}

/// An output component.
#[derive(Debug, PartialEq, Eq)]
pub enum Output {
    Tester(Tester),
}

/// What an output component is.
pub enum OutputView {
    Tester(TesterView),
}

/// The observed cell of an output component.
pub open spec fn output_target(o: OutputView) -> Pos {
    match o {
        OutputView::Tester(t) => t.target,
    }
}

/// Whether an output component has a non-empty pattern.
pub open spec fn output_ok(o: OutputView) -> bool {
    match o {
        OutputView::Tester(t) => t.expected.len() > 0,
    }
}

impl View for Output {
    type V = OutputView;

    open spec fn view(&self) -> OutputView {
        match self {
            Output::Tester(t) => OutputView::Tester(t@),
        }
    }
}

impl Clone for Output {
    fn clone(&self) -> (r: Self)
        ensures
            r@ == self@,
    {
        match self {
            Output::Tester(t) => Output::Tester(t.clone()),
        }
    }
}

impl OutputComponent for Output {
    fn target(&self) -> (p: Pos)
        ensures
            p == output_target(self@),
    {
        match self {
            Output::Tester(tester) => tester.target(),
        }
    }
}

impl OutputComponent for Tester {
    fn target(&self) -> (p: Pos)
        ensures
            p == self@.target,
    {
        Tester::target(self)
    }
}

} // verus!
