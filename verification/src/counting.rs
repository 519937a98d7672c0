//! Counting the positions of a sequence that a flag marks, and the distinct
//! identifiers that stand at them.

use vstd::prelude::*;
use crate::model::NodeId;

verus! {

/// How many of `flags` are set.
pub open spec fn count_true(flags: Seq<bool>) -> nat
    decreases flags.len(),
{
    if flags.len() == 0 {
        0
    } else {
        count_true(flags.drop_last()) + if flags.last() {
            1nat
        } else {
            0nat
        }
    }
}

/// The identifiers in `names` at the positions that `flags` marks.
pub open spec fn flagged(names: Seq<NodeId>, flags: Seq<bool>) -> Set<NodeId> {
    Set::new(|k: NodeId| exists|i: int| 0 <= i < names.len() && i < flags.len() && flags[i] && #[trigger] names[i] == k)
}

/// No more flags are set than there are.
pub proof fn lemma_count_true_bound(flags: Seq<bool>)
    ensures
        count_true(flags) <= flags.len(),
    decreases flags.len(),
{
    if flags.len() > 0 {
        lemma_count_true_bound(flags.drop_last());
    }
}

/// One more flag adds one to the count if it is set.
pub proof fn lemma_count_true_step(flags: Seq<bool>, i: int)
    requires
        0 <= i < flags.len(),
    ensures
        count_true(flags.take(i + 1)) == count_true(flags.take(i)) + if flags[i] {
            1nat
        } else {
            0nat
        },
{
    assert(flags.take(i + 1).drop_last() =~= flags.take(i));
}

/// Where no identifier stands twice, the marked positions and the
/// identifiers at them are equally many.
pub proof fn lemma_flagged_len(names: Seq<NodeId>, flags: Seq<bool>)
    requires
        names.no_duplicates(),
        names.len() == flags.len(),
    ensures
        flagged(names, flags).finite(),
        flagged(names, flags).len() == count_true(flags),
    decreases names.len(),
{
    if names.len() == 0 {
        assert(flagged(names, flags) =~= Set::<NodeId>::empty());
    } else {
        let shorter = names.drop_last();
        let fewer = flags.drop_last();
        lemma_flagged_len(shorter, fewer);
        let last = names.len() - 1;
        assert forall|k: NodeId| flagged(shorter, fewer).contains(k) implies flagged(names, flags).contains(k) by {
            let i = choose|i: int| 0 <= i < shorter.len() && i < fewer.len() && fewer[i] && #[trigger] shorter[i] == k;
            assert(names[i] == k);
        }
        assert forall|k: NodeId| flagged(names, flags).contains(k) && k != names[last] implies flagged(
            shorter,
            fewer,
        ).contains(k) by {
            let i = choose|i: int| 0 <= i < names.len() && i < flags.len() && flags[i] && #[trigger] names[i] == k;
            assert(shorter[i] == k);
        }
        assert(!flagged(shorter, fewer).contains(names[last])) by {
            if flagged(shorter, fewer).contains(names[last]) {
                let i = choose|i: int|
                    0 <= i < shorter.len() && i < fewer.len() && fewer[i] && #[trigger] shorter[i] == names[last];
                assert(names[i] == names[last]);
            }
        }
        if flags[last] {
            assert(names[last] == names[last]);
            assert(flagged(names, flags).contains(names[last]));
            assert(flagged(names, flags) =~= flagged(shorter, fewer).insert(names[last]));
        } else {
            assert(!flagged(names, flags).contains(names[last])) by {
                if flagged(names, flags).contains(names[last]) {
                    let i = choose|i: int|
                        0 <= i < names.len() && i < flags.len() && flags[i] && #[trigger] names[i] == names[last];
                    assert(i != last);
                }
            }
            assert(flagged(names, flags) =~= flagged(shorter, fewer));
        }
    }
}

} // verus!
