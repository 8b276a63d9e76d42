//! Runs: neighbouring addresses that hold the same value, taken together.

use vstd::prelude::*;
use crate::value::ValueKey;

verus! {

/// Addresses from `start` to `end`, both included, that all hold `key`.
#[derive(Clone, Copy, PartialEq, Eq, Debug, Structural)]
pub struct Run {
    pub start: usize,
    pub end: usize,
    pub key: ValueKey,
}

/// Whether a value at `index` goes on with `run`: it stands right behind
/// the run and is the run's value.
pub open spec fn continues(run: Run, index: usize, key: ValueKey) -> bool {
    run.end + 1 == index && run.key == key
}

/// The runs of a sequence of indexed values, found from left to right: a
/// value joins the run before it if it continues that run, and starts a run
/// of its own if it does not.
pub open spec fn runs_of(pairs: Seq<(usize, ValueKey)>) -> Seq<Run>
    decreases pairs.len(),
{
    if pairs.len() == 0 {
        Seq::empty()
    } else {
        let earlier = runs_of(pairs.drop_last());
        let (index, key) = pairs.last();
        if earlier.len() > 0 && continues(earlier.last(), index, key) {
            earlier.drop_last().push(Run { start: earlier.last().start, end: index, key })
        } else {
            earlier.push(Run { start: index, end: index, key })
        }
    }
}

/// Whether the indices grow from each pair to the next.
pub open spec fn increasing(pairs: Seq<(usize, ValueKey)>) -> bool {
    forall|i: int, j: int| 0 <= i < j < pairs.len() ==> pairs[i].0 < pairs[j].0
}

/// Whether `index` lies in `run`.
pub open spec fn covers(run: Run, index: usize) -> bool {
    run.start <= index <= run.end
}

/// Groups indexed values into runs.
pub fn group_runs(pairs: &[(usize, ValueKey)]) -> (runs: Vec<Run>)
    ensures
        runs@ == runs_of(pairs@),
{
    let mut runs: Vec<Run> = Vec::new();
    if pairs.len() == 0 {
        return runs;
    }
    let mut current = Run { start: pairs[0].0, end: pairs[0].0, key: pairs[0].1 };
    let mut next: usize = 1;
    proof {
        assert(pairs@.subrange(0, 1).drop_last() =~= Seq::empty());
        assert(runs_of(pairs@.subrange(0, 1).drop_last()) =~= Seq::empty());
        assert(runs@.push(current) =~= runs_of(pairs@.subrange(0, 1)));
    }
    while next < pairs.len()
        invariant
            1 <= next <= pairs@.len(),
            runs@.push(current) == runs_of(pairs@.subrange(0, next as int)),
        decreases pairs@.len() - next,
    {
        let (index, key) = pairs[next];
        proof {
            assert(pairs@.subrange(0, next + 1).drop_last() =~= pairs@.subrange(0, next as int));
        }
        if current.end < usize::MAX && current.end + 1 == index && current.key == key {
            let ghost merged = Run { start: current.start, end: index, key };
            proof {
                assert(runs@.push(current).drop_last() =~= runs@);
                assert(runs@.push(merged) =~= runs_of(pairs@.subrange(0, next + 1)));
            }
            current.end = index;
        } else {
            runs.push(current);
            current = Run { start: index, end: index, key };
        }
        next += 1;
    }
    proof {
        assert(pairs@.subrange(0, next as int) =~= pairs@);
    }
    runs.push(current);
    runs
}

/// What holds of the runs of values whose indices grow: each run is in
/// order, and the runs follow one another without touching the same index.
pub proof fn lemma_runs_ordered(pairs: Seq<(usize, ValueKey)>)
    requires
        increasing(pairs),
    ensures
        forall|j: int|
            0 <= j < runs_of(pairs).len() ==> (#[trigger] runs_of(pairs)[j]).start <= runs_of(
                pairs,
            )[j].end,
        forall|j: int, k: int|
            0 <= j < k < runs_of(pairs).len() ==> (#[trigger] runs_of(pairs)[j]).end < (
            #[trigger] runs_of(pairs)[k]).start,
        pairs.len() > 0 ==> runs_of(pairs).len() > 0 && runs_of(pairs).last().end
            == pairs.last().0,
        pairs.len() == 0 ==> runs_of(pairs).len() == 0,
    decreases pairs.len(),
{
    if pairs.len() > 0 {
        let shorter = pairs.drop_last();
        assert(increasing(shorter));
        lemma_runs_ordered(shorter);
        if shorter.len() > 0 {
            assert(shorter.last() == pairs[pairs.len() - 2]);
        }
    }
}

/// Every value is in a run, and the run has the value's key.
pub proof fn lemma_runs_cover(pairs: Seq<(usize, ValueKey)>, i: int)
    requires
        increasing(pairs),
        0 <= i < pairs.len(),
    ensures
        exists|j: int|
            0 <= j < runs_of(pairs).len() && covers(#[trigger] runs_of(pairs)[j], pairs[i].0)
                && runs_of(pairs)[j].key == pairs[i].1,
    decreases pairs.len(),
{
    let shorter = pairs.drop_last();
    let earlier = runs_of(shorter);
    let runs = runs_of(pairs);
    assert(increasing(shorter));
    lemma_runs_ordered(shorter);
    lemma_runs_ordered(pairs);
    if i == pairs.len() - 1 {
        let j = runs.len() - 1;
        assert(covers(runs[j], pairs[i].0) && runs[j].key == pairs[i].1);
    } else {
        lemma_runs_cover(shorter, i);
        let j = choose|j: int|
            0 <= j < earlier.len() && covers(#[trigger] earlier[j], shorter[i].0) && earlier[j].key
                == shorter[i].1;
        assert(shorter.last() == pairs[pairs.len() - 2]);
        assert(covers(runs[j], pairs[i].0) && runs[j].key == pairs[i].1);
    }
}

/// Every index in a run is the index of a value with the run's key: a run
/// has no gaps and no other value in it.
pub proof fn lemma_runs_hold(pairs: Seq<(usize, ValueKey)>, j: int, index: usize)
    requires
        increasing(pairs),
        0 <= j < runs_of(pairs).len(),
        covers(runs_of(pairs)[j], index),
    ensures
        exists|i: int| 0 <= i < pairs.len() && #[trigger] pairs[i] == (index, runs_of(pairs)[j].key),
    decreases pairs.len(),
{
    let shorter = pairs.drop_last();
    let earlier = runs_of(shorter);
    let runs = runs_of(pairs);
    assert(increasing(shorter));
    lemma_runs_ordered(shorter);
    lemma_runs_ordered(pairs);
    let last = pairs.len() - 1;
    if j == runs.len() - 1 && index == pairs.last().0 {
        assert(pairs[last] == (index, runs[j].key));
    } else {
        if shorter.len() > 0 {
            assert(shorter.last() == pairs[pairs.len() - 2]);
        }
        assert(0 <= j < earlier.len() && covers(earlier[j], index) && earlier[j].key
            == runs[j].key);
        lemma_runs_hold(shorter, j, index);
        let i = choose|i: int|
            0 <= i < shorter.len() && #[trigger] shorter[i] == (index, earlier[j].key);
        assert(pairs[i] == (index, runs[j].key));
    }
}

/// No two runs that follow one another could have been one: either an
/// index lies between them, or their keys differ.
pub proof fn lemma_runs_maximal(pairs: Seq<(usize, ValueKey)>, j: int)
    requires
        increasing(pairs),
        0 <= j,
        j + 1 < runs_of(pairs).len(),
    ensures
        !continues(runs_of(pairs)[j], runs_of(pairs)[j + 1].start, runs_of(pairs)[j + 1].key),
    decreases pairs.len(),
{
    let shorter = pairs.drop_last();
    let earlier = runs_of(shorter);
    let runs = runs_of(pairs);
    assert(increasing(shorter));
    lemma_runs_ordered(shorter);
    lemma_runs_ordered(pairs);
    if shorter.len() > 0 {
        assert(shorter.last() == pairs[pairs.len() - 2]);
    }
    if j + 1 < earlier.len() {
        lemma_runs_maximal(shorter, j);
    }
}

} // verus!
