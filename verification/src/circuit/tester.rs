use vstd::prelude::*;

use crate::base::Pos;

verus! {

/// What a tester is: its target, its expected pattern and whether it loops.
pub struct TesterView {
    pub target: Pos,
    pub expected: Seq<Option<bool>>,
    pub is_loop: bool,
}

/// The value a tester expects at `tick`; `None` means "not checked". A looping
/// tester repeats its pattern; a non-looping one checks nothing past its end.
pub open spec fn tester_expected(t: TesterView, tick: nat) -> Option<bool> {
    if t.is_loop {
        t.expected[(tick % t.expected.len()) as int]
    } else if tick < t.expected.len() {
        t.expected[tick as int]
    } else {
        None
    }
}

/// Checks the value of its target cell at every tick against an expected pattern.
#[derive(Debug, PartialEq, Eq)]
pub struct Tester {
    target: Pos,
    expected: Vec<Option<bool>>,
    is_loop: bool,
}

impl View for Tester {
    type V = TesterView;

    closed spec fn view(&self) -> TesterView {
        TesterView { target: self.target, expected: self.expected@, is_loop: self.is_loop }
    }
}

impl Clone for Tester {
    fn clone(&self) -> (r: Self)
        ensures
            r@ == self@,
    {
        let expected = self.expected.clone();
        assert(expected@ =~= self.expected@);
        Tester { target: self.target, expected, is_loop: self.is_loop }
    }
}

impl Tester {
    /// Creates a tester.
    pub fn new(target: Pos, expected: Vec<Option<bool>>, is_loop: bool) -> (t: Tester)
        ensures
            t@.target == target,
            t@.expected == expected@,
            t@.is_loop == is_loop,
    {
        Tester { target, expected, is_loop }
    }

    /// The observed cell.
    pub fn target(&self) -> (p: Pos)
        ensures
            p == self@.target,
    {
        self.target
    }

    /// The expected pattern.
    pub fn expected(&self) -> (s: &[Option<bool>])
        ensures
            s@ == self@.expected,
    {
        self.expected.as_slice()
    }

    /// Whether the pattern repeats.
    pub fn is_loop(&self) -> (b: bool)
        ensures
            b == self@.is_loop,
    {
        self.is_loop
    }

    /// The value expected at `tick`; `None` means "not checked".
    pub fn expected_at(&self, tick: u64) -> (r: Option<bool>)
        requires
            self@.is_loop ==> self@.expected.len() > 0,
        ensures
            r == tester_expected(self@, tick as nat),
    {
        let len = self.expected.len() as u64;
        if self.is_loop {
            self.expected[(tick % len) as usize]
        } else if tick < len {
            self.expected[tick as usize]
        } else {
            None
        }
    }
}

/// A looping tester repeats its pattern; a non-looping one checks nothing once
/// its pattern is exhausted.
pub proof fn lemma_tester_periodic(t: TesterView, tick: nat)
    requires
        t.is_loop ==> t.expected.len() > 0,
    ensures
        t.is_loop ==> tester_expected(t, tick + t.expected.len()) == tester_expected(t, tick),
        !t.is_loop && tick >= t.expected.len() ==> tester_expected(t, tick) is None,
{
    if t.is_loop {
        vstd::arithmetic::div_mod::lemma_mod_add_multiples_vanish(
            tick as int,
            t.expected.len() as int,
        );
    }
}

} // verus!
