//! Depth-first enumeration of every assignment of affixes to slots.
use vstd::prelude::*;

use crate::gear::Affix;

verus! {

/// Every completion of `path` to `depth` slots, taking the options of each
/// slot in list order, depth first: the leaves in lexicographic order of the
/// option lists.
pub open spec fn leaves(opts: Seq<Seq<Affix>>, path: Seq<Affix>, depth: nat) -> Seq<Seq<Affix>>
    decreases depth - path.len(), opts[path.len() as int].len() + 1,
{
    if path.len() >= depth {
        seq![path]
    } else {
        leaves_from(opts, path, depth, opts[path.len() as int])
    }
}

/// The leaves below `path` that pass through the first slot-options `choices`
/// of the next slot, in order.
pub open spec fn leaves_from(
    opts: Seq<Seq<Affix>>,
    path: Seq<Affix>,
    depth: nat,
    choices: Seq<Affix>,
) -> Seq<Seq<Affix>>
    decreases depth - path.len(), choices.len(),
{
    if path.len() >= depth || choices.len() == 0 {
        Seq::empty()
    } else {
        leaves_from(opts, path, depth, choices.drop_last()) + leaves(
            opts,
            path.push(choices.last()),
            depth,
        )
    }
}

/// The product of the option counts of slots `from` up to `depth`.
pub open spec fn leaf_count(opts: Seq<Seq<Affix>>, from: nat, depth: nat) -> nat
    decreases depth - from,
{
    if from >= depth {
        1
    } else {
        opts[from as int].len() * leaf_count(opts, from + 1, depth)
    }
}

/// The walk below `path` reaches exactly as many leaves as the product of the
/// option counts of the slots still open, and every leaf extends `path` to
/// `depth` slots with options of the matching slots.
pub proof fn lemma_leaf_count(opts: Seq<Seq<Affix>>, path: Seq<Affix>, depth: nat)
    requires
        path.len() <= depth <= opts.len(),
    ensures
        leaves(opts, path, depth).len() == leaf_count(opts, path.len(), depth),
        forall|k: int|
            0 <= k < leaves(opts, path, depth).len() ==> is_completion(
                opts,
                path,
                depth,
                #[trigger] leaves(opts, path, depth)[k],
            ),
    decreases depth - path.len(), opts[path.len() as int].len() + 1,
{
    if path.len() < depth {
        lemma_leaf_count_from(opts, path, depth, opts[path.len() as int]);
    } else {
        assert(path.take(path.len() as int) == path);
    }
}

/// `leaf` extends `path` to `depth` slots, each added slot holding one of its options.
pub open spec fn is_completion(
    opts: Seq<Seq<Affix>>,
    path: Seq<Affix>,
    depth: nat,
    leaf: Seq<Affix>,
) -> bool {
    &&& leaf.len() == depth
    &&& leaf.take(path.len() as int) == path
    &&& forall|d: int| path.len() <= d < depth ==> opts[d].contains(#[trigger] leaf[d])
}

proof fn lemma_leaf_count_from(
    opts: Seq<Seq<Affix>>,
    path: Seq<Affix>,
    depth: nat,
    choices: Seq<Affix>,
)
    requires
        path.len() < depth <= opts.len(),
        forall|j: int| 0 <= j < choices.len() ==> opts[path.len() as int].contains(
            #[trigger] choices[j],
        ),
    ensures
        leaves_from(opts, path, depth, choices).len() == choices.len() * leaf_count(
            opts,
            path.len() + 1,
            depth,
        ),
        forall|k: int|
            0 <= k < leaves_from(opts, path, depth, choices).len() ==> is_completion(
                opts,
                path,
                depth,
                #[trigger] leaves_from(opts, path, depth, choices)[k],
            ),
    decreases depth - path.len(), choices.len(),
{
    if choices.len() > 0 {
        let front = choices.drop_last();
        let next = path.push(choices.last());
        assert(opts[path.len() as int].contains(choices[choices.len() - 1]));
        lemma_leaf_count_from(opts, path, depth, front);
        lemma_leaf_count(opts, next, depth);
        let a = leaves_from(opts, path, depth, front);
        let b = leaves(opts, next, depth);
        let c = leaf_count(opts, path.len() + 1, depth);
        assert(front.len() * c + c == choices.len() * c) by (nonlinear_arith)
            requires
                front.len() + 1 == choices.len(),
        ;
        assert forall|k: int| 0 <= k < (a + b).len() implies is_completion(
            opts,
            path,
            depth,
            #[trigger] (a + b)[k],
        ) by {
            if k >= a.len() {
                let leaf = b[k - a.len()];
                assert(is_completion(opts, next, depth, leaf));
                assert(leaf.take(path.len() as int) == leaf.take(next.len() as int).take(
                    path.len() as int,
                ));
                assert(leaf.take(path.len() as int) == path);
                assert(leaf[path.len() as int] == leaf.take(next.len() as int)[path.len() as int]);
            } else {
                assert(is_completion(opts, path, depth, a[k]));
            }
        }
    }
}

/// When no slot lists an option twice, no assignment is reached twice.
pub proof fn lemma_leaves_distinct(opts: Seq<Seq<Affix>>, path: Seq<Affix>, depth: nat)
    requires
        path.len() <= depth <= opts.len(),
        forall|d: int| path.len() <= d < depth ==> (#[trigger] opts[d]).no_duplicates(),
    ensures
        leaves(opts, path, depth).no_duplicates(),
    decreases depth - path.len(), opts[path.len() as int].len() + 1,
{
    if path.len() < depth {
        lemma_leaves_from_distinct(opts, path, depth, opts[path.len() as int]);
    }
}

proof fn lemma_leaves_from_distinct(
    opts: Seq<Seq<Affix>>,
    path: Seq<Affix>,
    depth: nat,
    choices: Seq<Affix>,
)
    requires
        path.len() < depth <= opts.len(),
        forall|d: int| path.len() <= d < depth ==> (#[trigger] opts[d]).no_duplicates(),
        choices.no_duplicates(),
    ensures
        leaves_from(opts, path, depth, choices).no_duplicates(),
        forall|k: int|
            0 <= k < leaves_from(opts, path, depth, choices).len() ==> choices.contains(
                (#[trigger] leaves_from(opts, path, depth, choices)[k])[path.len() as int],
            ),
    decreases depth - path.len(), choices.len(),
{
    if choices.len() > 0 {
        let front = choices.drop_last();
        let last = choices.last();
        let next = path.push(last);
        assert(front.no_duplicates());
        lemma_leaves_from_distinct(opts, path, depth, front);
        lemma_leaves_distinct(opts, next, depth);
        lemma_leaf_count(opts, next, depth);
        let a = leaves_from(opts, path, depth, front);
        let b = leaves(opts, next, depth);
        assert forall|k: int| 0 <= k < b.len() implies (#[trigger] b[k])[path.len() as int] == last by {
            assert(is_completion(opts, next, depth, b[k]));
            assert(b[k].take(next.len() as int)[path.len() as int] == b[k][path.len() as int]);
        }
        assert(!front.contains(last)) by {
            if front.contains(last) {
                let j = choose|j: int| 0 <= j < front.len() && front[j] == last;
                assert(choices[j] == choices[choices.len() - 1]);
            }
        }
        assert forall|i: int, j: int| 0 <= i < j < (a + b).len() implies (a + b)[i] != (a + b)[j] by {
            if i < a.len() && j >= a.len() {
                assert(front.contains(a[i][path.len() as int]));
                assert(b[j - a.len()][path.len() as int] == last);
            }
        }
        assert forall|k: int| 0 <= k < (a + b).len() implies choices.contains(
            (#[trigger] (a + b)[k])[path.len() as int],
        ) by {
            if k < a.len() {
                let x = a[k][path.len() as int];
                assert(front.contains(x));
                let j = choose|j: int| 0 <= j < front.len() && front[j] == x;
                assert(choices[j] == x);
            } else {
                assert(b[k - a.len()][path.len() as int] == last);
                assert(choices[choices.len() - 1] == last);
            }
        }
    }
}

/// Walks the tree of affix choices below `subtree`, which holds the choices
/// made for the first slots, down to `max_depth` slots, and appends each
/// complete assignment to `found`. `subtree` is a scratch path: it is
/// extended and shortened in place and holds its starting value again on
/// return.
pub fn descend_subtree_dfs(
    affix_array: &Vec<Vec<Affix>>,
    subtree: &mut Vec<Affix>,
    max_depth: usize,
    found: &mut Vec<Vec<Affix>>,
)
    requires
        max_depth <= affix_array@.len(),
    ensures
        final(subtree)@ == old(subtree)@,
        final(found)@.map_values(|l: Vec<Affix>| l@) == old(found)@.map_values(
            |l: Vec<Affix>| l@,
        ) + leaves(affix_array@.map_values(|o: Vec<Affix>| o@), old(subtree)@, max_depth as nat),
    decreases max_depth - old(subtree)@.len(),
{
    let ghost opts = affix_array@.map_values(|o: Vec<Affix>| o@);
    let ghost path = subtree@;
    let ghost start = found@.map_values(|l: Vec<Affix>| l@);
    let current_layer = subtree.len();
    if current_layer >= max_depth {
        found.push(subtree.clone());
        proof {
            assert(found@.map_values(|l: Vec<Affix>| l@) == start + seq![path]);
        }
    } else {
        let options = &affix_array[current_layer];
        assert(opts[current_layer as int] == options@);
        let mut i: usize = 0;
        while i < options.len()
            invariant
                opts == affix_array@.map_values(|o: Vec<Affix>| o@),
                max_depth <= affix_array@.len(),
                current_layer < max_depth,
                path.len() == current_layer,
                options@ == opts[current_layer as int],
                i <= options@.len(),
                subtree@ == path,
                path == old(subtree)@,
                found@.map_values(|l: Vec<Affix>| l@) == start + leaves_from(
                    opts,
                    path,
                    max_depth as nat,
                    options@.take(i as int),
                ),
            decreases options@.len() - i,
        {
            let option = options[i];
            subtree.push(option);
            descend_subtree_dfs(affix_array, subtree, max_depth, found);
            subtree.pop();
            proof {
                let c = options@.take(i + 1);
                assert(c.drop_last() == options@.take(i as int));
                assert(c.last() == option);
            }
            i = i + 1;
        }
        assert(options@.take(i as int) == options@);
    }
}

} // verus!
