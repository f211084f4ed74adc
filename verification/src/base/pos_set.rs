use vstd::prelude::*;

use crate::base::pos::{pos_lt, Pos};

verus! {

/// Whether the positions of `s` are in strictly increasing order (so no
/// position occurs twice).
pub open spec fn sorted_strict(s: Seq<Pos>) -> bool {
    forall|i: int, j: int| 0 <= i < j < s.len() ==> pos_lt(#[trigger] s[i], #[trigger] s[j])
}

/// Looks `p` up in the sorted sequence `s`.
///
/// Returns `Ok(i)` when `s[i] == p`, and `Err(i)` when `p` does not occur, `i`
/// being the place where `p` would be inserted to keep `s` sorted.
pub fn search_sorted(s: &[Pos], p: Pos) -> (r: Result<usize, usize>)
    requires
        sorted_strict(s@),
    ensures
        match r {
            Ok(i) => i < s@.len() && s@[i as int] == p,
            Err(i) => {
                &&& i <= s@.len()
                &&& !s@.contains(p)
                &&& forall|k: int| 0 <= k < i ==> pos_lt(#[trigger] s@[k], p)
                &&& forall|k: int| i <= k < s@.len() ==> pos_lt(p, #[trigger] s@[k])
            },
        },
{
    let mut lo: usize = 0;
    let mut hi: usize = s.len();
    while lo < hi
        invariant
            sorted_strict(s@),
            lo <= hi <= s@.len(),
            forall|k: int| 0 <= k < lo ==> pos_lt(#[trigger] s@[k], p),
            forall|k: int| hi <= k < s@.len() ==> pos_lt(p, #[trigger] s@[k]),
        decreases hi - lo,
    {
        let mid = lo + (hi - lo) / 2;
        let m = s[mid];
        if m == p {
            return Ok(mid);
        }
        if m.lt(&p) {
            assert forall|k: int| 0 <= k < mid + 1 implies pos_lt(#[trigger] s@[k], p) by {
                if k < mid {
                    assert(pos_lt(s@[k], s@[mid as int]));
                }
            }
            lo = mid + 1;
        } else {
            assert forall|k: int| mid <= k < s@.len() implies pos_lt(p, #[trigger] s@[k]) by {
                if k > mid {
                    assert(pos_lt(s@[mid as int], s@[k]));
                }
            }
            hi = mid;
        }
    }
    assert(!s@.contains(p)) by {
        if s@.contains(p) {
            let k = choose|k: int| 0 <= k < s@.len() && s@[k] == p;
            assert(pos_lt(s@[k], p) || pos_lt(p, s@[k]));
        }
    }
    Err(lo)
}

/// A set of positions, kept in increasing order.
///
/// Its view is the increasing sequence of its elements.
#[derive(Debug)]
pub struct PosSet {
    items: Vec<Pos>,
}

impl View for PosSet {
    type V = Seq<Pos>;

    closed spec fn view(&self) -> Seq<Pos> {
        self.items@
    }
}

impl Clone for PosSet {
    fn clone(&self) -> (r: Self)
        ensures
            r@ == self@,
    {
        proof {
            use_type_invariant(self);
        }
        let items = self.items.clone();
        assert(items@ =~= self.items@);
        PosSet { items }
    }
}

impl PosSet {
    /// The elements are in strictly increasing order.
    #[verifier::type_invariant]
    pub closed spec fn well_sorted(self) -> bool {
        sorted_strict(self.items@)
    }

    /// An empty set.
    pub fn new() -> (r: PosSet)
        ensures
            r@ == Seq::<Pos>::empty(),
    {
        PosSet { items: Vec::new() }
    }

    /// The elements, in increasing order, are strictly increasing.
    pub fn sorted(&self)
        ensures
            sorted_strict(self@),
    {
        proof {
            use_type_invariant(self);
        }
    }

    /// The number of elements.
    pub fn len(&self) -> (n: usize)
        ensures
            n == self@.len(),
    {
        self.items.len()
    }

    /// Whether the set has no element.
    pub fn is_empty(&self) -> (b: bool)
        ensures
            b == (self@.len() == 0),
    {
        self.items.len() == 0
    }

    /// Whether `p` is an element.
    pub fn contains(&self, p: &Pos) -> (b: bool)
        ensures
            b == self@.contains(*p),
    {
        proof {
            use_type_invariant(self);
        }
        match search_sorted(self.items.as_slice(), *p) {
            Ok(_) => true,
            Err(_) => false,
        }
    }

    /// The place of `p` among the elements, if it is one.
    pub fn index_of(&self, p: &Pos) -> (r: Option<usize>)
        ensures
            match r {
                Some(i) => i < self@.len() && self@[i as int] == *p,
                None => !self@.contains(*p),
            },
    {
        proof {
            use_type_invariant(self);
        }
        match search_sorted(self.items.as_slice(), *p) {
            Ok(i) => Some(i),
            Err(_) => None,
        }
    }

    /// Adds `p`; returns whether it was not an element before.
    pub fn insert(&mut self, p: Pos) -> (added: bool)
        ensures
            added == !old(self)@.contains(p),
            sorted_strict(final(self)@),
            final(self)@.to_set() == old(self)@.to_set().insert(p),
            final(self)@.len() == old(self)@.len() + (if added { 1int } else { 0int }),
    {
        proof {
            use_type_invariant(&*self);
        }
        let ghost s = self.items@;
        match search_sorted(self.items.as_slice(), p) {
            Ok(_) => {
                assert(self@.to_set() =~= s.to_set().insert(p)) by {
                    assert(s.contains(p));
                }
                false
            },
            Err(i) => {
                let mut items = Vec::new();
                std::mem::swap(&mut items, &mut self.items);
                items.insert(i, p);
                let ghost t = items@;
                assert(t =~= s.insert(i as int, p));
                assert(sorted_strict(t)) by {
                    assert forall|a: int, b: int| 0 <= a < b < t.len() implies pos_lt(
                        #[trigger] t[a],
                        #[trigger] t[b],
                    ) by {
                        if b < i {
                        } else if b == i {
                        } else if a < i {
                            assert(pos_lt(s[a], p));
                        } else if a == i {
                        } else {
                            assert(pos_lt(s[a - 1], s[b - 1]));
                        }
                    }
                }
                assert(t.to_set() =~= s.to_set().insert(p)) by {
                    assert forall|q: Pos| #[trigger] t.contains(q) <==> s.contains(q) || q == p by {
                        if t.contains(q) {
                            let k = choose|k: int| 0 <= k < t.len() && t[k] == q;
                            if k < i {
                                assert(s[k] == q);
                            } else if k > i {
                                assert(s[k - 1] == q);
                            }
                        }
                        if s.contains(q) {
                            let k = choose|k: int| 0 <= k < s.len() && s[k] == q;
                            if k < i {
                                assert(t[k] == q);
                            } else {
                                assert(t[k + 1] == q);
                            }
                        }
                        if q == p {
                            assert(t[i as int] == p);
                        }
                    }
                }
                self.items = items;
                true
            },
        }
    }

    /// The set of the positions of `s`.
    pub fn from_slice(s: &[Pos]) -> (r: PosSet)
        ensures
            sorted_strict(r@),
            r@.to_set() == s@.to_set(),
    {
        let mut r = PosSet::new();
        let mut i: usize = 0;
        while i < s.len()
            invariant
                i <= s@.len(),
                sorted_strict(r@),
                r@.to_set() == s@.subrange(0, i as int).to_set(),
            decreases s@.len() - i,
        {
            proof {
                use_type_invariant(&r);
            }
            r.insert(s[i]);
            assert(s@.subrange(0, i + 1) =~= s@.subrange(0, i as int).push(s@[i as int]));
            proof {
                lemma_push_to_set(s@.subrange(0, i as int), s@[i as int]);
            }
            i = i + 1;
        }
        assert(s@.subrange(0, s@.len() as int) =~= s@);
        proof {
            use_type_invariant(&r);
        }
        r
    }

    /// The elements in increasing order.
    pub fn as_slice(&self) -> (r: &[Pos])
        ensures
            r@ == self@,
    {
        self.items.as_slice()
    }
}

/// Adding an element at the end of a sequence adds it to its set.
pub proof fn lemma_push_to_set(s: Seq<Pos>, p: Pos)
    ensures
        s.push(p).to_set() == s.to_set().insert(p),
{
    assert(s.push(p).to_set() =~= s.to_set().insert(p)) by {
        assert forall|q: Pos| #[trigger] s.push(p).contains(q) <==> s.contains(q) || q == p by {
            if s.push(p).contains(q) {
                let k = choose|k: int| 0 <= k < s.len() + 1 && s.push(p)[k] == q;
                if k < s.len() {
                    assert(s[k] == q);
                }
            }
            if s.contains(q) {
                let k = choose|k: int| 0 <= k < s.len() && s[k] == q;
                assert(s.push(p)[k] == q);
            }
            if q == p {
                assert(s.push(p)[s.len() as int] == p);
            }
        }
    }
}

} // verus!
