use vstd::prelude::*;

use crate::parser::json::{ModuleJson, SubCircuitJson};

verus! {

/// The order on texts: character by character (by code point), a proper
/// prefix first. It is the order of the UTF-8 bytes.
pub open spec fn text_lt(a: Seq<char>, b: Seq<char>) -> bool
    decreases a.len(),
{
    if a.len() == 0 {
        b.len() > 0
    } else if b.len() == 0 {
        false
    } else if a[0] != b[0] {
        a[0] < b[0]
    } else {
        text_lt(a.drop_first(), b.drop_first())
    }
}

/// The order on texts is strict and total: exactly one of `a < b`, `a == b`,
/// `b < a` holds, and it is transitive.
pub proof fn lemma_text_order(a: Seq<char>, b: Seq<char>, c: Seq<char>)
    ensures
        !text_lt(a, a),
        text_lt(a, b) ==> !text_lt(b, a),
        text_lt(a, b) || a == b || text_lt(b, a),
        text_lt(a, b) && text_lt(b, c) ==> text_lt(a, c),
    decreases a.len(),
{
    if a.len() > 0 {
        let b1 = if b.len() > 0 {
            b.drop_first()
        } else {
            b
        };
        let c1 = if c.len() > 0 {
            c.drop_first()
        } else {
            c
        };
        lemma_text_order(a.drop_first(), b1, c1);
        if b.len() > 0 && a[0] == b[0] && a.drop_first() == b.drop_first() {
            assert(a =~= b) by {
                assert forall|i: int| 0 <= i < a.len() implies a[i] == b[i] by {
                    if i > 0 {
                        assert(a[i] == a.drop_first()[i - 1]);
                        assert(b[i] == b.drop_first()[i - 1]);
                    }
                }
            }
        }
    } else if b.len() == 0 {
        assert(a =~= b);
    }
}

/// Whether `a < b` in the order on texts.
pub fn text_less(a: &str, b: &str) -> (r: bool)
    ensures
        r == text_lt(a@, b@),
{
    let na = a.unicode_len();
    let nb = b.unicode_len();
    let mut i: usize = 0;
    assert(a@.skip(0) =~= a@);
    assert(b@.skip(0) =~= b@);
    while i < na && i < nb
        invariant
            na == a@.len(),
            nb == b@.len(),
            i <= na,
            i <= nb,
            text_lt(a@, b@) == text_lt(a@.skip(i as int), b@.skip(i as int)),
        decreases na - i,
    {
        let ca = a.get_char(i);
        let cb = b.get_char(i);
        assert(a@.skip(i as int)[0] == ca);
        assert(b@.skip(i as int)[0] == cb);
        if ca != cb {
            return ca < cb;
        }
        assert(a@.skip(i as int).drop_first() =~= a@.skip(i + 1));
        assert(b@.skip(i as int).drop_first() =~= b@.skip(i + 1));
        i = i + 1;
    }
    if i == na {
        assert(a@.skip(i as int).len() == 0);
        i < nb
    } else {
        assert(b@.skip(i as int).len() == 0);
        false
    }
}

/// The word `sub`.
pub open spec fn word_sub() -> Seq<char> {
    seq!['s', 'u', 'b']
}

/// The sub-circuit a module entry names, when it is of kind `sub` and names one.
pub open spec fn module_sub_name(m: ModuleJson) -> Option<Seq<char>> {
    if m.module_type@ == word_sub() {
        match m.sub_circuit {
            Some(n) => Some(n@),
            None => None,
        }
    } else {
        None
    }
}

/// The names of the definitions, in order.
pub open spec fn sub_names(subs: Seq<(String, SubCircuitJson)>) -> Seq<Seq<char>> {
    subs.map_values(|e: (String, SubCircuitJson)| e.0@)
}

/// No name is defined twice.
pub open spec fn names_distinct(subs: Seq<(String, SubCircuitJson)>) -> bool {
    forall|i: int, j: int| 0 <= i < j < subs.len() ==> (#[trigger] subs[i]).0@ != (#[trigger] subs[j]).0@
}

/// Every sub-circuit that definition `d` names is among `placed`.
pub open spec fn deps_placed(d: SubCircuitJson, placed: Seq<Seq<char>>) -> bool {
    forall|j: int|
        0 <= j < d.modules@.len() ==> match module_sub_name(#[trigger] d.modules@[j]) {
            Some(n) => placed.contains(n),
            None => true,
        }
}

/// Whether the `i`-th definition can be built after `placed`: it is not
/// placed and everything it names is.
pub open spec fn is_ready(subs: Seq<(String, SubCircuitJson)>, placed: Seq<Seq<char>>, i: int) -> bool {
    &&& 0 <= i < subs.len()
    &&& !placed.contains(subs[i].0@)
    &&& deps_placed(subs[i].1, placed)
}

/// Whether the `k`-th name of `order` is the greatest name that is ready
/// after the ones before it.
pub open spec fn greatest_ready_at(subs: Seq<(String, SubCircuitJson)>, order: Seq<Seq<char>>, k: int) -> bool {
    let placed = order.subrange(0, k);
    &&& exists|i: int| #[trigger] is_ready(subs, placed, i) && subs[i].0@ == order[k]
    &&& forall|j: int| #[trigger] is_ready(subs, placed, j) ==> !text_lt(order[k], subs[j].0@)
}

/// Whether `order` is the build order of the definitions: each name in turn
/// is the greatest of those whose dependencies are all placed, until none is
/// left that can be placed.
pub open spec fn is_build_order(subs: Seq<(String, SubCircuitJson)>, order: Seq<Seq<char>>) -> bool {
    &&& forall|k: int| 0 <= k < order.len() ==> #[trigger] greatest_ready_at(subs, order, k)
    &&& forall|i: int| !#[trigger] is_ready(subs, order, i)
}

/// The names of the definitions not in `order`, among the first `n`, in order.
pub open spec fn unplaced_upto(subs: Seq<(String, SubCircuitJson)>, order: Seq<Seq<char>>, n: nat) -> Seq<
    Seq<char>,
>
    decreases n,
{
    if n == 0 {
        Seq::empty()
    } else {
        let r = unplaced_upto(subs, order, (n - 1) as nat);
        if order.contains(subs[n - 1].0@) {
            r
        } else {
            r.push(subs[n - 1].0@)
        }
    }
}

/// Texts joined with `, `.
pub open spec fn joined(ns: Seq<Seq<char>>) -> Seq<char>
    decreases ns.len(),
{
    if ns.len() == 0 {
        Seq::empty()
    } else if ns.len() == 1 {
        ns[0]
    } else {
        joined(ns.drop_last()) + seq![',', ' '] + ns.last()
    }
}

/// Two build orders agree on their first `k` names.
proof fn lemma_build_order_prefix(
    subs: Seq<(String, SubCircuitJson)>,
    o1: Seq<Seq<char>>,
    o2: Seq<Seq<char>>,
    k: int,
)
    requires
        names_distinct(subs),
        is_build_order(subs, o1),
        is_build_order(subs, o2),
        0 <= k <= o1.len(),
        k <= o2.len(),
    ensures
        o1.subrange(0, k) == o2.subrange(0, k),
    decreases k,
{
    if k > 0 {
        let j = k - 1;
        lemma_build_order_prefix(subs, o1, o2, j);
        assert(greatest_ready_at(subs, o1, j));
        assert(greatest_ready_at(subs, o2, j));
        let placed = o1.subrange(0, j);
        let i1 = choose|i: int| #[trigger] is_ready(subs, placed, i) && subs[i].0@ == o1[j];
        let i2 = choose|i: int| #[trigger] is_ready(subs, o2.subrange(0, j), i) && subs[i].0@ == o2[j];
        assert(is_ready(subs, placed, i2));
        assert(!text_lt(o1[j], subs[i2].0@));
        assert(!text_lt(o2[j], subs[i1].0@));
        lemma_text_order(o1[j], o2[j], o1[j]);
        assert(o1.subrange(0, k) =~= o1.subrange(0, j).push(o1[j]));
        assert(o2.subrange(0, k) =~= o2.subrange(0, j).push(o2[j]));
    }
}

/// There is at most one build order: each name in it is fixed by the ones
/// before it, and so is where it stops.
pub proof fn lemma_build_order_unique(
    subs: Seq<(String, SubCircuitJson)>,
    o1: Seq<Seq<char>>,
    o2: Seq<Seq<char>>,
)
    requires
        names_distinct(subs),
        is_build_order(subs, o1),
        is_build_order(subs, o2),
    ensures
        o1 == o2,
{
    let n = if o1.len() < o2.len() {
        o1.len()
    } else {
        o2.len()
    };
    lemma_build_order_prefix(subs, o1, o2, n as int);
    if o1.len() < o2.len() {
        assert(o1 =~= o1.subrange(0, n as int));
        assert(greatest_ready_at(subs, o2, n as int));
        let i2 = choose|i: int| #[trigger] is_ready(subs, o2.subrange(0, n as int), i) && subs[i].0@ == o2[n as int];
        assert(is_ready(subs, o1, i2));
    } else if o2.len() < o1.len() {
        assert(o2 =~= o2.subrange(0, n as int));
        assert(greatest_ready_at(subs, o1, n as int));
        let i1 = choose|i: int| #[trigger] is_ready(subs, o1.subrange(0, n as int), i) && subs[i].0@ == o1[n as int];
        assert(is_ready(subs, o2, i1));
    } else {
        assert(o1 =~= o1.subrange(0, n as int));
        assert(o2 =~= o2.subrange(0, n as int));
    }
}

/// In a build order every name is defined, placed once, and comes after
/// every definition it names.
pub proof fn lemma_build_order_deps(subs: Seq<(String, SubCircuitJson)>, order: Seq<Seq<char>>, k: int)
    requires
        is_build_order(subs, order),
        0 <= k < order.len(),
    ensures
        sub_names(subs).contains(order[k]),
        !order.subrange(0, k).contains(order[k]),
        exists|i: int|
            0 <= i < subs.len() && subs[i].0@ == order[k] && deps_placed(
                subs[i].1,
                order.subrange(0, k),
            ),
{
    assert(greatest_ready_at(subs, order, k));
    let i = choose|i: int| #[trigger] is_ready(subs, order.subrange(0, k), i) && subs[i].0@ == order[k];
    assert(sub_names(subs)[i] == order[k]);
}

/// A build order is no longer than the list of definitions: it names each
/// definition at most once.
pub proof fn lemma_build_order_len(subs: Seq<(String, SubCircuitJson)>, order: Seq<Seq<char>>)
    requires
        is_build_order(subs, order),
    ensures
        order.len() <= subs.len(),
{
    assert(order.no_duplicates()) by {
        assert forall|i: int, j: int|
            0 <= i < order.len() && 0 <= j < order.len() && i != j implies order[i] != order[j] by {
            let (a, b) = if i < j {
                (i, j)
            } else {
                (j, i)
            };
            lemma_build_order_deps(subs, order, b);
            assert(order.subrange(0, b)[a] == order[a]);
        }
    }
    order.unique_seq_to_set();
    let names = sub_names(subs);
    assert(order.to_set().subset_of(names.to_set())) by {
        assert forall|x: Seq<char>| order.to_set().contains(x) implies names.to_set().contains(x) by {
            let k = choose|k: int| 0 <= k < order.len() && order[k] == x;
            lemma_build_order_deps(subs, order, k);
        }
    }
    vstd::seq_lib::seq_to_set_is_finite(names);
    vstd::set_lib::lemma_len_subset(order.to_set(), names.to_set());
    names.lemma_cardinality_of_set();
}

} // verus!
