//! The up-to-date check: a build command is skipped exactly when every
//! declared output exists with a known modification time, every declared
//! input does too, and no input is newer than the newest output.  A missing
//! file, an unreadable time, or a command with no declared outputs forces
//! re-execution.  Modification times arrive as `Option` values: `None`
//! stands for a file whose time could not be read.

use vstd::prelude::*;

verus! {

/// Every file has a readable modification time.
pub open spec fn all_known(ts: Seq<Option<u128>>) -> bool {
    forall|i: int| 0 <= i < ts.len() ==> (#[trigger] ts[i]) is Some
}

/// The newest time in the list (zero when the list is empty).
pub open spec fn max_mtime(ts: Seq<Option<u128>>) -> int
    decreases ts.len(),
{
    if ts.len() == 0 {
        0
    } else {
        let rest = max_mtime(ts.drop_last());
        match ts.last() {
            Some(t) => {
                if t as int > rest {
                    t as int
                } else {
                    rest
                }
            }
            None => rest,
        }
    }
}

/// The command may be skipped.
pub open spec fn up_to_date(outs: Seq<Option<u128>>, ins: Seq<Option<u128>>) -> bool {
    &&& outs.len() > 0
    &&& all_known(outs)
    &&& all_known(ins)
    &&& max_mtime(ins) <= max_mtime(outs)
}

proof fn lemma_max_ge(ts: Seq<Option<u128>>, i: int)
    requires
        0 <= i < ts.len(),
        ts[i] is Some,
    ensures
        max_mtime(ts) >= ts[i].unwrap() as int,
    decreases ts.len(),
{
    if i < ts.len() - 1 {
        assert(ts.drop_last()[i] == ts[i]);
        lemma_max_ge(ts.drop_last(), i);
    }
}

proof fn lemma_max_le(ts: Seq<Option<u128>>, bound: int)
    requires
        forall|i: int| 0 <= i < ts.len() && (#[trigger] ts[i]) is Some ==> ts[i].unwrap() <= bound,
        bound >= 0,
    ensures
        max_mtime(ts) <= bound,
    decreases ts.len(),
{
    if ts.len() > 0 {
        assert(forall|i: int|
            0 <= i < ts.drop_last().len() ==> ts.drop_last()[i] == ts[i]);
        lemma_max_le(ts.drop_last(), bound);
    }
}

/// Decide whether a command must re-run, from the modification times of its
/// declared outputs and inputs.
pub fn rerun_necessary(output_mtimes: &Vec<Option<u128>>, input_mtimes: &Vec<Option<u128>>) -> (r:
    bool)
    ensures
        r == !up_to_date(output_mtimes@, input_mtimes@),
{
    if output_mtimes.len() == 0 {
        return true;
    }
    let mut max_out: u128 = 0;
    let mut i: usize = 0;
    while i < output_mtimes.len()
        invariant
            i <= output_mtimes.len(),
            forall|x: int| 0 <= x < i ==> (#[trigger] output_mtimes[x]) is Some,
            max_out as int == max_mtime(output_mtimes@.subrange(0, i as int)),
        decreases output_mtimes.len() - i,
    {
        match output_mtimes[i] {
            None => {
                return true;
            }
            Some(t) => {
                proof {
                    assert(output_mtimes@.subrange(0, i + 1).drop_last() =~= output_mtimes@.subrange(
                        0,
                        i as int,
                    ));
                    assert(output_mtimes@.subrange(0, i + 1).last() == output_mtimes@[i as int]);
                }
                if t > max_out {
                    max_out = t;
                }
            }
        }
        i = i + 1;
    }
    proof {
        assert(output_mtimes@.subrange(0, output_mtimes@.len() as int) =~= output_mtimes@);
    }
    let mut k: usize = 0;
    while k < input_mtimes.len()
        invariant
            k <= input_mtimes.len(),
            forall|x: int|
                0 <= x < k ==> (#[trigger] input_mtimes[x]) is Some && input_mtimes[x].unwrap()
                    <= max_out,
            max_out as int == max_mtime(output_mtimes@),
            output_mtimes@.len() > 0,
            all_known(output_mtimes@),
        decreases input_mtimes.len() - k,
    {
        match input_mtimes[k] {
            None => {
                return true;
            }
            Some(t) => {
                if t > max_out {
                    proof {
                        lemma_max_ge(input_mtimes@, k as int);
                    }
                    return true;
                }
            }
        }
        k = k + 1;
    }
    proof {
        lemma_max_le(input_mtimes@, max_out as int);
    }
    false
}

} // verus!
