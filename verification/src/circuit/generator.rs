use vstd::prelude::*;

use crate::base::Pos;

verus! {

/// What a generator is: its target, its pattern and whether it loops.
pub struct GeneratorView {
    pub target: Pos,
    pub pattern: Seq<bool>,
    pub is_loop: bool,
}

/// The place in a pattern of length `len` that is read at `tick`: the pattern
/// repeats when looping, and otherwise its last entry holds forever.
pub open spec fn pattern_slot(len: nat, is_loop: bool, tick: nat) -> nat {
    if is_loop {
        tick % len
    } else if tick < len {
        tick
    } else {
        (len - 1) as nat
    }
}

/// The value a generator injects at `tick` (its pattern must not be empty).
pub open spec fn generator_value(g: GeneratorView, tick: nat) -> bool {
    g.pattern[pattern_slot(g.pattern.len(), g.is_loop, tick) as int]
}

/// Injects a value into its target cell at every tick, following a pattern.
#[derive(Debug, PartialEq, Eq)]
pub struct Generator {
    target: Pos,
    pattern: Vec<bool>,
    is_loop: bool,
}

impl View for Generator {
    type V = GeneratorView;

    closed spec fn view(&self) -> GeneratorView {
        GeneratorView { target: self.target, pattern: self.pattern@, is_loop: self.is_loop }
    }
}

impl Clone for Generator {
    fn clone(&self) -> (r: Self)
        ensures
            r@ == self@,
    {
        let pattern = self.pattern.clone();
        assert(pattern@ =~= self.pattern@);
        Generator { target: self.target, pattern, is_loop: self.is_loop }
    }
}

impl Generator {
    /// Creates a generator.
    pub fn new(target: Pos, pattern: Vec<bool>, is_loop: bool) -> (g: Generator)
        ensures
            g@.target == target,
            g@.pattern == pattern@,
            g@.is_loop == is_loop,
    {
        Generator { target, pattern, is_loop }
    }

    /// The cell the generator drives.
    pub fn target(&self) -> (p: Pos)
        ensures
            p == self@.target,
    {
        self.target
    }

    /// The pattern.
    pub fn pattern(&self) -> (s: &[bool])
        ensures
            s@ == self@.pattern,
    {
        self.pattern.as_slice()
    }

    /// Whether the pattern repeats.
    pub fn is_loop(&self) -> (b: bool)
        ensures
            b == self@.is_loop,
    {
        self.is_loop
    }

    /// The value injected at `tick`.
    pub fn value_at(&self, tick: u64) -> (v: bool)
        requires
            self@.pattern.len() > 0,
        ensures
            v == generator_value(self@, tick as nat),
    {
        let len = self.pattern.len() as u64;
        if self.is_loop {
            self.pattern[(tick % len) as usize]
        } else {
            let slot = if tick < len {
                tick
            } else {
                len - 1
            };
            self.pattern[slot as usize]
        }
    }
}

/// A looping generator repeats its pattern, and a non-looping one holds its
/// last value once its pattern is exhausted.
pub proof fn lemma_generator_periodic(g: GeneratorView, tick: nat)
    requires
        g.pattern.len() > 0,
    ensures
        g.is_loop ==> generator_value(g, tick + g.pattern.len()) == generator_value(g, tick),
        !g.is_loop && tick + 1 >= g.pattern.len() ==> generator_value(g, tick) == g.pattern.last(),
        tick < g.pattern.len() ==> generator_value(g, tick) == g.pattern[tick as int],
{
    if g.is_loop {
        vstd::arithmetic::div_mod::lemma_mod_add_multiples_vanish(
            tick as int,
            g.pattern.len() as int,
        );
        if tick < g.pattern.len() {
            vstd::arithmetic::div_mod::lemma_small_mod(tick, g.pattern.len());
        }
    }
}

} // verus!
