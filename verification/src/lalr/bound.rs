//! A bound on the number of states: the kernels of an automaton are distinct
//! sets of items of its grammar, and a grammar has finitely many items.

use crate::slr::item::SlrItem;
use crate::symbolic_grammar::{SymbolicGrammar, SPECIAL_ID};
use vstd::prelude::*;
use vstd::set_lib::{lemma_int_range, lemma_len_subset, set_int_range};

verus! {

/// The items of one production whose marker stands before position `upto`.
pub open spec fn items_of(production_id: usize, upto: nat) -> Seq<SlrItem>
    decreases upto,
{
    if upto == 0 {
        Seq::empty()
    } else {
        items_of(production_id, (upto - 1) as nat).push(
            SlrItem { production_id, marker_position: (upto - 1) as usize },
        )
    }
}

/// The items of the augmenting production and of the first `count` productions.
pub open spec fn universe_upto(grammar: &SymbolicGrammar, count: nat) -> Seq<SlrItem>
    decreases count,
{
    if count == 0 {
        items_of(SPECIAL_ID, 2)
    } else {
        universe_upto(grammar, (count - 1) as nat) + items_of(
            (count - 1) as usize,
            grammar.productions@[count - 1].body@.len() + 1,
        )
    }
}

/// All items of the grammar.
pub open spec fn universe(grammar: &SymbolicGrammar) -> Seq<SlrItem> {
    universe_upto(grammar, grammar.productions@.len())
}

pub open spec fn pow2(n: nat) -> nat
    decreases n,
{
    if n == 0 {
        1
    } else {
        2 * pow2((n - 1) as nat)
    }
}

/// A grammar's automaton has at most this many states.
pub open spec fn state_bound(grammar: &SymbolicGrammar) -> nat {
    pow2(universe(grammar).len())
}

proof fn lemma_items_of_holds(production_id: usize, upto: nat, marker: usize)
    requires
        marker < upto,
    ensures
        items_of(production_id, upto).contains(
            SlrItem { production_id, marker_position: marker },
        ),
    decreases upto,
{
    let all = items_of(production_id, upto);
    if marker == upto - 1 {
        assert(all[all.len() - 1] == SlrItem { production_id, marker_position: marker });
    } else {
        lemma_items_of_holds(production_id, (upto - 1) as nat, marker);
        let below = items_of(production_id, (upto - 1) as nat);
        let i = choose|i: int|
            0 <= i < below.len() && below[i] == SlrItem { production_id, marker_position: marker };
        assert(all[i] == below[i]);
    }
}

proof fn lemma_universe_upto_holds(grammar: &SymbolicGrammar, count: nat, item: SlrItem)
    requires
        grammar.wf(),
        item.valid(grammar),
        count <= grammar.productions@.len(),
        item.production_id == SPECIAL_ID || item.production_id < count,
    ensures
        universe_upto(grammar, count).contains(item),
    decreases count,
{
    let all = universe_upto(grammar, count);
    if count == 0 {
        lemma_items_of_holds(SPECIAL_ID, 2, item.marker_position);
    } else {
        let below = universe_upto(grammar, (count - 1) as nat);
        let own = items_of((count - 1) as usize, grammar.productions@[count - 1].body@.len() + 1);
        if item.production_id == count - 1 {
            assert(grammar.productions.len() == grammar.productions@.len());
            assert(grammar.production_spec(item.production_id) == Some(
                grammar.productions@[count - 1],
            ));
            lemma_items_of_holds(
                (count - 1) as usize,
                grammar.productions@[count - 1].body@.len() + 1,
                item.marker_position,
            );
            let i = choose|i: int| 0 <= i < own.len() && own[i] == item;
            assert(all[below.len() + i] == own[i]);
        } else {
            lemma_universe_upto_holds(grammar, (count - 1) as nat, item);
            let i = choose|i: int| 0 <= i < below.len() && below[i] == item;
            assert(all[i] == below[i]);
        }
    }
}

/// Every item of the grammar is in its universe.
pub proof fn lemma_universe_holds(grammar: &SymbolicGrammar, item: SlrItem)
    requires
        grammar.wf(),
        item.valid(grammar),
    ensures
        universe(grammar).contains(item),
{
    lemma_universe_upto_holds(grammar, grammar.productions@.len(), item);
}

/// The number whose binary digits say which of the first `n` items of `all`
/// are in `set`.
pub open spec fn code(set: Set<SlrItem>, all: Seq<SlrItem>, n: nat) -> nat
    decreases n,
{
    if n == 0 {
        0
    } else {
        2 * code(set, all, (n - 1) as nat) + if set.contains(all[n - 1]) {
            1nat
        } else {
            0nat
        }
    }
}

proof fn lemma_code_bound(set: Set<SlrItem>, all: Seq<SlrItem>, n: nat)
    ensures
        code(set, all, n) < pow2(n),
    decreases n,
{
    if n > 0 {
        lemma_code_bound(set, all, (n - 1) as nat);
    }
}

proof fn lemma_code_tells(a: Set<SlrItem>, b: Set<SlrItem>, all: Seq<SlrItem>, n: nat, i: int)
    requires
        code(a, all, n) == code(b, all, n),
        0 <= i < n,
    ensures
        a.contains(all[i]) == b.contains(all[i]),
    decreases n,
{
    if i < n - 1 {
        lemma_code_tells(a, b, all, (n - 1) as nat, i);
    }
}

/// Distinct numbers below a bound are at most as many as the bound.
proof fn lemma_pigeonhole(codes: Seq<int>, bound: int)
    requires
        0 <= bound,
        codes.no_duplicates(),
        forall|i: int| 0 <= i < codes.len() ==> 0 <= #[trigger] codes[i] < bound,
    ensures
        codes.len() <= bound,
{
    codes.unique_seq_to_set();
    lemma_int_range(0, bound);
    assert(codes.to_set().subset_of(set_int_range(0, bound))) by {
        assert forall|c: int| codes.to_set().contains(c) implies set_int_range(0, bound).contains(
            c,
        ) by {
            let i = choose|i: int| 0 <= i < codes.len() && codes[i] == c;
            assert(0 <= codes[i] < bound);
        }
    }
    lemma_len_subset(codes.to_set(), set_int_range(0, bound));
}

/// Distinct sets of items of a grammar are at most as many as the bound says.
pub proof fn lemma_state_bound(grammar: &SymbolicGrammar, kernels: Seq<Set<SlrItem>>)
    requires
        grammar.wf(),
        forall|s: int, item: SlrItem|
            0 <= s < kernels.len() && (#[trigger] kernels[s]).contains(item) ==> #[trigger] item.valid(
                grammar,
            ),
        forall|a: int, b: int|
            0 <= a < b < kernels.len() ==> #[trigger] kernels[a] != #[trigger] kernels[b],
    ensures
        kernels.len() <= state_bound(grammar),
{
    let all = universe(grammar);
    let codes = Seq::new(kernels.len(), |s: int| code(kernels[s], all, all.len()) as int);
    assert forall|a: int, b: int| 0 <= a < codes.len() && 0 <= b < codes.len() && a
        != b implies codes[a] != codes[b] by {
        if codes[a] == codes[b] {
            assert forall|item: SlrItem| kernels[a].contains(item) == kernels[b].contains(
                item,
            ) by {
                if kernels[a].contains(item) || kernels[b].contains(item) {
                    assert(item.valid(grammar));
                    lemma_universe_holds(grammar, item);
                    let i = choose|i: int| 0 <= i < all.len() && all[i] == item;
                    lemma_code_tells(kernels[a], kernels[b], all, all.len(), i);
                }
            }
            assert(kernels[a] =~= kernels[b]);
            if a < b {
                assert(kernels[a] != kernels[b]);
            } else {
                assert(kernels[b] != kernels[a]);
            }
        }
    }
    assert forall|i: int| 0 <= i < codes.len() implies 0 <= #[trigger] codes[i] < pow2(
        all.len(),
    ) by {
        lemma_code_bound(kernels[i], all, all.len());
    }
    lemma_pigeonhole(codes, pow2(all.len()) as int);
}

} // verus!
