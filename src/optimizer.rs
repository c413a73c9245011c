//! The run driver: walks every chunk of the affix tree and keeps the best
//! assignments over all combinations.
use vstd::prelude::*;

use crate::attributes::EvalError;
use crate::enumerate::{leaves, leaves_from};
use crate::gear::{Affix, Character, Combination, MAX_SLOTS};
use crate::pipeline::{equipped, evaluate, test_character};
use crate::results::{
    accepts, insert_all, lemma_collector_bound, score_of, sorted_desc, spec_insert, state_after, worst,
    Entry, ResultSet,
};

verus! {

/// Offers the evaluation of `leaf` under each combination in turn.
pub open spec fn offer_leaf(
    s: Seq<Entry>,
    cap: nat,
    rankby: crate::attributes::Attribute,
    combos: Seq<Combination>,
    leaf: Seq<Affix>,
) -> Result<Seq<Entry>, EvalError>
    decreases combos.len(),
{
    if combos.len() == 0 {
        Ok(s)
    } else {
        match offer_leaf(s, cap, rankby, combos.drop_last(), leaf) {
            Ok(t) => match evaluate(&combos.last(), leaf) {
                Ok(w) => Ok(spec_insert(t, cap, rankby, (equipped(leaf), w))),
                Err(e) => Err(e),
            },
            Err(e) => Err(e),
        }
    }
}

/// Offers every leaf in turn; the first failed evaluation ends the run.
pub open spec fn offer_leaves(
    s: Seq<Entry>,
    cap: nat,
    rankby: crate::attributes::Attribute,
    combos: Seq<Combination>,
    ls: Seq<Seq<Affix>>,
) -> Result<Seq<Entry>, EvalError>
    decreases ls.len(),
{
    if ls.len() == 0 {
        Ok(s)
    } else {
        match offer_leaves(s, cap, rankby, combos, ls.drop_last()) {
            Ok(t) => offer_leaf(t, cap, rankby, combos, ls.last()),
            Err(e) => Err(e),
        }
    }
}

/// The leaves of every chunk, chunk by chunk.
pub open spec fn all_leaves(chunks: Seq<Seq<Affix>>, opts: Seq<Seq<Affix>>, depth: nat) -> Seq<
    Seq<Affix>,
>
    decreases chunks.len(),
{
    if chunks.len() == 0 {
        Seq::empty()
    } else {
        all_leaves(chunks.drop_last(), opts, depth) + leaves(opts, chunks.last(), depth)
    }
}

/// The inputs of a run agree: at least one combination, each with consistent
/// tables, all with the ranking attribute and capacity of the first and
/// with options for at least its slot count, and no chunk longer than that
/// slot count.
pub open spec fn valid_run(chunks: Seq<Seq<Affix>>, combos: Seq<Combination>) -> bool {
    &&& combos.len() > 0
    &&& forall|i: int|
        0 <= i < combos.len() ==> {
            &&& (#[trigger] combos[i]).wf()
            &&& combos[i].rankby == combos[0].rankby
            &&& combos[i].max_results == combos[0].max_results
            &&& combos[0].slots <= combos[i].affixes_array@.len()
        }
    &&& forall|i: int| 0 <= i < chunks.len() ==> (#[trigger] chunks[i]).len() <= combos[0].slots
}

/// What a run returns: the best entries over every leaf of every chunk and
/// every combination, or the first evaluation error.
pub open spec fn run(chunks: Seq<Seq<Affix>>, combos: Seq<Combination>) -> Result<Seq<Entry>, EvalError> {
    if !valid_run(chunks, combos) {
        Err(EvalError::InvalidInput)
    } else {
        offer_leaves(
            Seq::empty(),
            combos[0].max_results as nat,
            combos[0].rankby,
            combos,
            all_leaves(chunks, combos[0].options(), combos[0].slots as nat),
        )
    }
}

/// The entries that evaluating `leaf` under each combination gives, in order.
pub open spec fn leaf_entries(combos: Seq<Combination>, leaf: Seq<Affix>) -> Seq<Entry>
    decreases combos.len(),
{
    if combos.len() == 0 {
        Seq::empty()
    } else {
        leaf_entries(combos.drop_last(), leaf).push(
            (equipped(leaf), evaluate(&combos.last(), leaf)->Ok_0),
        )
    }
}

/// The entries of every leaf of `ls` under every combination, in the order
/// they are offered.
pub open spec fn run_entries(combos: Seq<Combination>, ls: Seq<Seq<Affix>>) -> Seq<Entry>
    decreases ls.len(),
{
    if ls.len() == 0 {
        Seq::empty()
    } else {
        run_entries(combos, ls.drop_last()) + leaf_entries(combos, ls.last())
    }
}

proof fn lemma_insert_all_concat(
    s: Seq<Entry>,
    cap: nat,
    rankby: crate::attributes::Attribute,
    a: Seq<Entry>,
    b: Seq<Entry>,
)
    ensures
        insert_all(s, cap, rankby, a + b) == insert_all(insert_all(s, cap, rankby, a), cap, rankby, b),
    decreases b.len(),
{
    if b.len() == 0 {
        assert(a + b == a);
    } else {
        assert((a + b).drop_last() == a + b.drop_last());
        assert((a + b).last() == b.last());
        lemma_insert_all_concat(s, cap, rankby, a, b.drop_last());
    }
}

proof fn lemma_offer_leaf_inserts(
    s: Seq<Entry>,
    cap: nat,
    rankby: crate::attributes::Attribute,
    combos: Seq<Combination>,
    leaf: Seq<Affix>,
)
    requires
        offer_leaf(s, cap, rankby, combos, leaf) is Ok,
    ensures
        offer_leaf(s, cap, rankby, combos, leaf)->Ok_0 == insert_all(s, cap, rankby, leaf_entries(combos, leaf)),
    decreases combos.len(),
{
    if combos.len() > 0 {
        lemma_offer_leaf_inserts(s, cap, rankby, combos.drop_last(), leaf);
        let xs = leaf_entries(combos, leaf);
        assert(xs.drop_last() == leaf_entries(combos.drop_last(), leaf));
    }
}

proof fn lemma_offer_leaves_inserts(
    s: Seq<Entry>,
    cap: nat,
    rankby: crate::attributes::Attribute,
    combos: Seq<Combination>,
    ls: Seq<Seq<Affix>>,
)
    requires
        offer_leaves(s, cap, rankby, combos, ls) is Ok,
    ensures
        offer_leaves(s, cap, rankby, combos, ls)->Ok_0 == insert_all(s, cap, rankby, run_entries(combos, ls)),
    decreases ls.len(),
{
    if ls.len() > 0 {
        lemma_offer_leaves_inserts(s, cap, rankby, combos, ls.drop_last());
        let t = offer_leaves(s, cap, rankby, combos, ls.drop_last())->Ok_0;
        lemma_offer_leaf_inserts(t, cap, rankby, combos, ls.last());
        lemma_insert_all_concat(s, cap, rankby, run_entries(combos, ls.drop_last()), leaf_entries(combos, ls.last()));
    }
}

/// A successful run keeps exactly what a collector of the run's capacity
/// keeps when it is offered every evaluated entry in turn. So it holds at
/// most that many entries, best first, and once it was full every entry that
/// it turned away scores no better than the worst entry it returns.
pub proof fn lemma_run_keeps_best(chunks: Seq<Seq<Affix>>, combos: Seq<Combination>)
    requires
        run(chunks, combos) is Ok,
    ensures
        ({
            let cap = combos[0].max_results as nat;
            let rankby = combos[0].rankby;
            let xs = run_entries(combos, all_leaves(chunks, combos[0].options(), combos[0].slots as nat));
            let kept = run(chunks, combos)->Ok_0;
            &&& kept == state_after(cap, rankby, xs, xs.len() as int)
            &&& kept.len() <= cap
            &&& sorted_desc(kept, rankby)
            &&& forall|i: int|
                0 <= i < xs.len() && cap > 0 && (#[trigger] state_after(cap, rankby, xs, i)).len() == cap
                    ==> (!accepts(state_after(cap, rankby, xs, i), cap, rankby, score_of(xs[i], rankby))
                    ==> score_of(xs[i], rankby) <= worst(kept, rankby))
        }),
{
    let cap = combos[0].max_results as nat;
    let rankby = combos[0].rankby;
    let ls = all_leaves(chunks, combos[0].options(), combos[0].slots as nat);
    let xs = run_entries(combos, ls);
    lemma_offer_leaves_inserts(Seq::empty(), cap, rankby, combos, ls);
    assert(xs.take(xs.len() as int) == xs);
    lemma_collector_bound(cap, rankby, xs);
}

/// How many evaluations a valid run makes: one per leaf and combination.
pub open spec fn evaluations(chunks: Seq<Seq<Affix>>, combos: Seq<Combination>) -> int {
    (combos.len() * all_leaves(chunks, combos[0].options(), combos[0].slots as nat).len()) as int
}

/// `x` as a counter that stops at `u64::MAX`.
pub open spec fn capped(x: int) -> u64 {
    if x > u64::MAX {
        u64::MAX
    } else {
        x as u64
    }
}

proof fn lemma_capped_add(x: int, y: int)
    requires
        x >= 0,
        y >= 0,
    ensures
        capped(capped(x) + y) == capped(x + y),
{
}

proof fn lemma_offer_concat(
    s: Seq<Entry>,
    cap: nat,
    rankby: crate::attributes::Attribute,
    combos: Seq<Combination>,
    a: Seq<Seq<Affix>>,
    b: Seq<Seq<Affix>>,
)
    ensures
        offer_leaves(s, cap, rankby, combos, a + b) == match offer_leaves(s, cap, rankby, combos, a) {
            Ok(t) => offer_leaves(t, cap, rankby, combos, b),
            Err(e) => Err(e),
        },
    decreases b.len(),
{
    if b.len() == 0 {
        assert(a + b == a);
    } else {
        assert((a + b).drop_last() == a + b.drop_last());
        lemma_offer_concat(s, cap, rankby, combos, a, b.drop_last());
    }
}

proof fn lemma_offer_leaf_err_prefix(
    s: Seq<Entry>,
    cap: nat,
    rankby: crate::attributes::Attribute,
    combos: Seq<Combination>,
    leaf: Seq<Affix>,
    i: int,
)
    requires
        0 <= i <= combos.len(),
    ensures
        offer_leaf(s, cap, rankby, combos.take(i), leaf) is Err ==> offer_leaf(s, cap, rankby, combos, leaf)
            == offer_leaf(s, cap, rankby, combos.take(i), leaf),
    decreases combos.len(),
{
    if i == combos.len() {
        assert(combos.take(i) == combos);
    } else {
        assert(combos.drop_last().take(i) == combos.take(i));
        lemma_offer_leaf_err_prefix(s, cap, rankby, combos.drop_last(), leaf, i);
    }
}

proof fn lemma_all_leaves_split(cs: Seq<Seq<Affix>>, opts: Seq<Seq<Affix>>, depth: nat, i: int) -> (rest: Seq<Seq<Affix>>)
    requires
        0 <= i <= cs.len(),
    ensures
        all_leaves(cs, opts, depth) == all_leaves(cs.take(i), opts, depth) + rest,
    decreases cs.len(),
{
    if i == cs.len() {
        assert(cs.take(i) == cs);
        assert(all_leaves(cs, opts, depth) + Seq::<Seq<Affix>>::empty() == all_leaves(cs, opts, depth));
        Seq::empty()
    } else {
        assert(cs.drop_last().take(i) == cs.take(i));
        let r = lemma_all_leaves_split(cs.drop_last(), opts, depth, i);
        let rest = r + leaves(opts, cs.last(), depth);
        assert(all_leaves(cs.take(i), opts, depth) + r + leaves(opts, cs.last(), depth) == all_leaves(cs.take(i), opts, depth) + rest);
        rest
    }
}

/// Evaluates `leaf` under every combination in turn and offers each result
/// to `result`.
fn offer_to_all(
    result: &mut ResultSet,
    character: &mut Character,
    combinations: &Vec<Combination>,
    leaf: &Vec<Affix>,
    evaluated: &mut u64,
) -> (r: Result<(), EvalError>)
    requires
        old(result).wf(),
        old(character).wf(),
        forall|i: int| 0 <= i < combinations@.len() ==> (#[trigger] combinations@[i]).wf() && leaf@.len() <= combinations@[i].affixes_array@.len() && leaf@.len() <= MAX_SLOTS,
    ensures
        final(result).wf(),
        final(character).wf(),
        final(result).spec_rankby() == old(result).spec_rankby(),
        final(result).spec_max_results() == old(result).spec_max_results(),
        match offer_leaf(old(result)@, old(result).spec_max_results(), old(result).spec_rankby(), combinations@, leaf@) {
            Ok(t) => r is Ok && final(result)@ == t && *final(evaluated) == capped(
                *old(evaluated) + combinations@.len(),
            ),
            Err(e) => r == Err::<(), EvalError>(e),
        },
{
    let ghost combos = combinations@;
    let ghost s0 = result@;
    let ghost cap = result.spec_max_results();
    let ghost rankby = result.spec_rankby();
    assert(combos.take(0) == Seq::<Combination>::empty());
    assert(capped(*evaluated + 0) == *evaluated);
    let mut j: usize = 0;
    while j < combinations.len()
        invariant
            combos == combinations@,
            forall|i: int| 0 <= i < combos.len() ==> (#[trigger] combos[i]).wf() && leaf@.len() <= combos[i].affixes_array@.len() && leaf@.len() <= MAX_SLOTS,
            j <= combos.len(),
            s0 == old(result)@,
            cap == old(result).spec_max_results(),
            rankby == old(result).spec_rankby(),
            result.wf(),
            result.spec_rankby() == rankby,
            result.spec_max_results() == cap,
            character.wf(),
            offer_leaf(s0, cap, rankby, combos.take(j as int), leaf@) == Ok::<Seq<Entry>, EvalError>(result@),
            *evaluated == capped(*old(evaluated) + j),
        decreases combos.len() - j,
    {
        let combo = &combinations[j];
        proof {
            assert(combos.take(j + 1).drop_last() == combos.take(j as int));
            assert(combos.take(j + 1).last() == combos[j as int]);
            assert(combos[j as int].wf());
            lemma_offer_leaf_err_prefix(s0, cap, rankby, combos, leaf@, j + 1);
        }
        test_character(character, combo, leaf.as_slice())?;
        result.insert(character);
        proof {
            lemma_capped_add(*old(evaluated) + j, 1);
        }
        *evaluated = evaluated.saturating_add(1);
        j = j + 1;
    }
    assert(combos.take(j as int) == combos);
    Ok(())
}

/// Walks the tree below `subtree` to `max_depth` slots, as
/// `descend_subtree_dfs` does, and evaluates each leaf under every
/// combination as it is reached; the first failed evaluation ends the walk.
fn offer_subtree(
    result: &mut ResultSet,
    character: &mut Character,
    combinations: &Vec<Combination>,
    affix_array: &Vec<Vec<Affix>>,
    subtree: &mut Vec<Affix>,
    max_depth: usize,
    evaluated: &mut u64,
) -> (r: Result<(), EvalError>)
    requires
        old(result).wf(),
        old(character).wf(),
        max_depth <= affix_array@.len(),
        old(subtree)@.len() <= max_depth,
        forall|i: int| 0 <= i < combinations@.len() ==> (#[trigger] combinations@[i]).wf() && max_depth <= combinations@[i].affixes_array@.len(),
        max_depth <= MAX_SLOTS,
    ensures
        final(result).wf(),
        final(character).wf(),
        final(subtree)@ == old(subtree)@,
        final(result).spec_rankby() == old(result).spec_rankby(),
        final(result).spec_max_results() == old(result).spec_max_results(),
        match offer_leaves(
            old(result)@,
            old(result).spec_max_results(),
            old(result).spec_rankby(),
            combinations@,
            leaves(affix_array@.map_values(|o: Vec<Affix>| o@), old(subtree)@, max_depth as nat),
        ) {
            Ok(t) => r is Ok && final(result)@ == t && *final(evaluated) == capped(
                *old(evaluated) + combinations@.len() * leaves(
                    affix_array@.map_values(|o: Vec<Affix>| o@),
                    old(subtree)@,
                    max_depth as nat,
                ).len(),
            ),
            Err(e) => r == Err::<(), EvalError>(e),
        },
    decreases max_depth - old(subtree)@.len(),
{
    let ghost opts = affix_array@.map_values(|o: Vec<Affix>| o@);
    let ghost path = subtree@;
    let ghost s0 = result@;
    let ghost cap = result.spec_max_results();
    let ghost rankby = result.spec_rankby();
    let ghost combos = combinations@;
    let current_layer = subtree.len();
    if current_layer >= max_depth {
        assert(seq![path].drop_last() == Seq::<Seq<Affix>>::empty());
        assert forall|i: int| 0 <= i < combos.len() implies (#[trigger] combos[i]).wf() && subtree@.len() <= combos[i].affixes_array@.len() && subtree@.len() <= MAX_SLOTS by {}
        offer_to_all(result, character, combinations, subtree, evaluated)
    } else {
        let ghost e0 = *evaluated;
        let ghost n = combos.len();
        let options = &affix_array[current_layer];
        assert(opts[current_layer as int] == options@);
        assert(options@.take(0) == Seq::<Affix>::empty());
        assert(capped(e0 + n * 0) == e0);
        let mut i: usize = 0;
        while i < options.len()
            invariant
                opts == affix_array@.map_values(|o: Vec<Affix>| o@),
                max_depth <= affix_array@.len(),
                current_layer < max_depth,
                path.len() == current_layer,
                path == old(subtree)@,
                options@ == opts[current_layer as int],
                i <= options@.len(),
                subtree@ == path,
                combos == combinations@,
                forall|i: int| 0 <= i < combos.len() ==> (#[trigger] combos[i]).wf() && max_depth <= combos[i].affixes_array@.len(),
                max_depth <= MAX_SLOTS,
                s0 == old(result)@,
                cap == old(result).spec_max_results(),
                rankby == old(result).spec_rankby(),
                result.wf(),
                result.spec_rankby() == rankby,
                result.spec_max_results() == cap,
                character.wf(),
                offer_leaves(s0, cap, rankby, combos, leaves_from(opts, path, max_depth as nat, options@.take(i as int)))
                    == Ok::<Seq<Entry>, EvalError>(result@),
                e0 == *old(evaluated),
                n == combos.len(),
                *evaluated == capped(e0 + n * leaves_from(opts, path, max_depth as nat, options@.take(i as int)).len()),
            decreases options@.len() - i,
        {
            let option = options[i];
            let ghost mid = result@;
            proof {
                let c = options@.take(i + 1);
                assert(c.drop_last() == options@.take(i as int));
                assert(c.last() == option);
                lemma_offer_concat(s0, cap, rankby, combos, leaves_from(opts, path, max_depth as nat, options@.take(i as int)), leaves(opts, path.push(option), max_depth as nat));
            }
            subtree.push(option);
            let ghost before = *evaluated;
            let step = offer_subtree(result, character, combinations, affix_array, subtree, max_depth, evaluated);
            subtree.pop();
            proof {
                if step.is_ok() {
                    let a = leaves_from(opts, path, max_depth as nat, options@.take(i as int)).len() as int;
                    let b = leaves(opts, path.push(option), max_depth as nat).len() as int;
                    assert(leaves_from(opts, path, max_depth as nat, options@.take(i + 1)).len() == a + b);
                    assert(n * a + n * b == n * (a + b)) by (nonlinear_arith);
                    assert(n * a >= 0 && n * b >= 0) by (nonlinear_arith)
                        requires
                            a >= 0,
                            b >= 0,
                            n >= 0,
                    ;
                    lemma_capped_add(e0 + n * a, n * b);
                }
            }
            if let Err(e) = step {
                proof {
                    let rest = lemma_leaves_from_split(opts, path, max_depth as nat, options@, i + 1);
                    lemma_offer_concat(s0, cap, rankby, combos, leaves_from(opts, path, max_depth as nat, options@.take(i + 1)), rest);
                    assert(options@.take(options@.len() as int) == options@);
                }
                return Err(e);
            }
            i = i + 1;
        }
        assert(options@.take(i as int) == options@);
        Ok(())
    }
}

proof fn lemma_leaves_from_split(
    opts: Seq<Seq<Affix>>,
    path: Seq<Affix>,
    depth: nat,
    choices: Seq<Affix>,
    i: int,
) -> (rest: Seq<Seq<Affix>>)
    requires
        0 <= i <= choices.len(),
    ensures
        leaves_from(opts, path, depth, choices) == leaves_from(opts, path, depth, choices.take(i)) + rest,
    decreases choices.len(),
{
    if i == choices.len() {
        assert(choices.take(i) == choices);
        assert(leaves_from(opts, path, depth, choices) + Seq::<Seq<Affix>>::empty() == leaves_from(opts, path, depth, choices));
        Seq::empty()
    } else {
        assert(choices.drop_last().take(i) == choices.take(i));
        let r = lemma_leaves_from_split(opts, path, depth, choices.drop_last(), i);
        if path.len() >= depth {
            assert(leaves_from(opts, path, depth, choices.take(i)) + Seq::<Seq<Affix>>::empty() == leaves_from(opts, path, depth, choices.take(i)));
            Seq::empty()
        } else {
            let rest = r + leaves(opts, path.push(choices.last()), depth);
            assert(leaves_from(opts, path, depth, choices.take(i)) + r + leaves(opts, path.push(choices.last()), depth)
                == leaves_from(opts, path, depth, choices.take(i)) + rest);
            rest
        }
    }
}

/// Evaluates every leaf below each chunk, down to the slot count of the
/// combinations, under every combination, and keeps the best entries by the
/// first combination's ranking attribute and capacity. Also returns how
/// many evaluations were made, capped at `u64::MAX`.
pub fn start(chunks: &Vec<Vec<Affix>>, combinations: &Vec<Combination>) -> (r: Result<
    (ResultSet, u64),
    EvalError,
>)
    ensures
        match run(chunks@.map_values(|c: Vec<Affix>| c@), combinations@) {
            Ok(t) => r is Ok && r->Ok_0.0@ == t && r->Ok_0.0.wf() && r->Ok_0.0.spec_rankby()
                == combinations@[0].rankby && r->Ok_0.0.spec_max_results()
                == combinations@[0].max_results && r->Ok_0.1 == capped(
                evaluations(chunks@.map_values(|c: Vec<Affix>| c@), combinations@),
            ),
            Err(e) => r == Err::<(ResultSet, u64), EvalError>(e),
        },
{
    let ghost cs = chunks@.map_values(|c: Vec<Affix>| c@);
    let ghost combos = combinations@;
    if combinations.len() == 0 {
        return Err(EvalError::InvalidInput);
    }
    let first = &combinations[0];
    let rankby = first.rankby;
    let max_results = first.max_results;
    let max_depth = first.slots;
    let mut k: usize = 0;
    while k < combinations.len()
        invariant
            k <= combos.len(),
            combos == combinations@,
            combos.len() > 0,
            first == &combos[0],
            rankby == combos[0].rankby,
            max_results == combos[0].max_results,
            max_depth == combos[0].slots,
            forall|i: int|
                0 <= i < k ==> {
                    &&& (#[trigger] combos[i]).wf()
                    &&& combos[i].rankby == combos[0].rankby
                    &&& combos[i].max_results == combos[0].max_results
                    &&& combos[0].slots <= combos[i].affixes_array@.len()
                },
        decreases combos.len() - k,
    {
        let c = &combinations[k];
        if !c.is_valid() || c.rankby != rankby || c.max_results != max_results || max_depth > c.affixes_array.len() {
            return Err(EvalError::InvalidInput);
        }
        k = k + 1;
    }
    let mut k: usize = 0;
    while k < chunks.len()
        invariant
            k <= cs.len(),
            cs == chunks@.map_values(|c: Vec<Affix>| c@),
            forall|i: int| 0 <= i < k ==> (#[trigger] cs[i]).len() <= max_depth,
            combos == combinations@,
            combos.len() > 0,
            first == &combos[0],
            rankby == combos[0].rankby,
            max_results == combos[0].max_results,
            max_depth == combos[0].slots,
            forall|i: int|
                0 <= i < combos.len() ==> {
                    &&& (#[trigger] combos[i]).wf()
                    &&& combos[i].rankby == combos[0].rankby
                    &&& combos[i].max_results == combos[0].max_results
                    &&& combos[0].slots <= combos[i].affixes_array@.len()
                },
        decreases cs.len() - k,
    {
        assert(cs[k as int] == chunks@[k as int]@);
        if chunks[k].len() > max_depth {
            return Err(EvalError::InvalidInput);
        }
        k = k + 1;
    }
    assert(valid_run(cs, combos));
    let ghost cap = max_results as nat;
    let ghost opts = first.options();
    let mut result = ResultSet::new(rankby, max_results);
    let mut character = Character::new();
    let mut evaluated: u64 = 0;
    assert(cs.take(0) == Seq::<Seq<Affix>>::empty());
    assert(combos.len() * 0 == 0);
    let mut c: usize = 0;
    while c < chunks.len()
        invariant
            valid_run(cs, combos),
            combos == combinations@,
            first == &combos[0],
            opts == first.options(),
            cap == max_results as nat,
            rankby == first.rankby,
            max_results == first.max_results,
            max_depth == first.slots,
            cs == chunks@.map_values(|c: Vec<Affix>| c@),
            c <= cs.len(),
            result.wf(),
            result.spec_rankby() == rankby,
            result.spec_max_results() == max_results,
            character.wf(),
            run(cs, combos) == offer_leaves(Seq::empty(), cap, rankby, combos, all_leaves(cs, opts, max_depth as nat)),
            offer_leaves(Seq::empty(), cap, rankby, combos, all_leaves(cs.take(c as int), opts, max_depth as nat))
                == Ok::<Seq<Entry>, EvalError>(result@),
            evaluated == capped((combos.len() * all_leaves(cs.take(c as int), opts, max_depth as nat).len()) as int),
        decreases cs.len() - c,
    {
        let mut path = chunks[c].clone();
        assert(cs[c as int].len() <= max_depth);
        let ghost ls = leaves(opts, cs[c as int], max_depth as nat);
        proof {
            assert(cs.take(c + 1).drop_last() == cs.take(c as int));
            assert(all_leaves(cs.take(c + 1), opts, max_depth as nat) == all_leaves(cs.take(c as int), opts, max_depth as nat) + ls);
            assert forall|i: int| 0 <= i < combos.len() implies (#[trigger] combos[i]).wf() && max_depth <= combos[i].affixes_array@.len() by {}
            assert(first.wf());
        }
        let ghost prefix = all_leaves(cs.take(c as int), opts, max_depth as nat);
        let ghost e0 = evaluated;
        let step = offer_subtree(&mut result, &mut character, combinations, &first.affixes_array, &mut path, max_depth, &mut evaluated);
        proof {
            lemma_offer_concat(Seq::empty(), cap, rankby, combos, prefix, ls);
            if step.is_ok() {
                let n = combos.len() as int;
                let a = prefix.len() as int;
                let b = ls.len() as int;
                assert(n * a + n * b == n * (a + b)) by (nonlinear_arith);
                assert(n * a >= 0 && n * b >= 0) by (nonlinear_arith)
                    requires
                        a >= 0,
                        b >= 0,
                        n >= 0,
                ;
                lemma_capped_add(n * a, n * b);
            }
        }
        if let Err(e) = step {
            proof {
                let rest = lemma_all_leaves_split(cs, opts, max_depth as nat, c + 1);
                lemma_offer_concat(Seq::empty(), cap, rankby, combos, all_leaves(cs.take(c + 1), opts, max_depth as nat), rest);
            }
            return Err(e);
        }
        c = c + 1;
    }
    assert(cs.take(c as int) == cs);
    Ok((result, evaluated))
}

} // verus!
