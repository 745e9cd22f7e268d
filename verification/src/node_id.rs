use vstd::prelude::*;

verus! {

/// Identifies a node; handed out in increasing order.
#[derive(Copy, Clone, PartialEq, Eq, Hash, Debug)]
pub struct NodeId(pub usize);

impl NodeId {
    /// The identifier after `last`, the last one handed out, which it then becomes.
    pub fn next(last: &mut usize) -> (r: NodeId)
        requires
            *old(last) < usize::MAX,
        ensures
            *final(last) == *old(last) + 1,
            r.0 == *final(last),
    {
        *last = *last + 1;
        NodeId(*last)
    }
}

/// Identifiers handed out by two successive calls of [`NodeId::next`] differ, and so
/// do all identifiers handed out from one counter.
pub proof fn lemma_node_ids_increase(first: NodeId, last_after_first: usize, second: NodeId, last_before_second: usize)
    requires
        first.0 == last_after_first,
        last_after_first <= last_before_second,
        second.0 == last_before_second + 1,
    ensures
        first.0 < second.0,
        first != second,
{
}

} // verus!
