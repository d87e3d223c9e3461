use vstd::prelude::*;

verus! {

/// The entries that row `u` receives from a sequence of (row, entry)
/// insertions, in order.
pub open spec fn appended<T>(ops: Seq<(int, T)>, u: int) -> Seq<T>
    decreases ops.len(),
{
    if ops.len() == 0 {
        Seq::empty()
    } else {
        let rest = appended(ops.drop_last(), u);
        if ops.last().0 == u {
            rest.push(ops.last().1)
        } else {
            rest
        }
    }
}

pub proof fn lemma_appended_push<T>(ops: Seq<(int, T)>, op: (int, T), u: int)
    ensures
        appended(ops.push(op), u) == if op.0 == u {
            appended(ops, u).push(op.1)
        } else {
            appended(ops, u)
        },
{
    assert(ops.push(op).drop_last() =~= ops);
}

} // verus!
