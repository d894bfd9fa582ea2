use vstd::prelude::*;

use crate::evaluator::Node;

verus! {

/// The node filter that matches every node.
pub const ALL_NODES: Node = 0xffff_ffff_ffff_ffff_ffff_ffff_ffff_ffff;

/// A subscription with `filter` matches a batch bound for `node`.
pub open spec fn filter_matches(filter: Node, node: Node) -> bool {
    filter == ALL_NODES || filter == node
}

/// The destinations, in order of subscription, whose filter matches `node`.
pub open spec fn matching(subs: Seq<(Node, usize)>, node: Node) -> Seq<usize>
    decreases subs.len(),
{
    if subs.len() == 0 {
        Seq::empty()
    } else {
        let rest = matching(subs.drop_last(), node);
        if filter_matches(subs.last().0, node) {
            rest.push(subs.last().1)
        } else {
            rest
        }
    }
}

/// A publish/subscribe table: each destination, named by a handle, with the
/// node filter it subscribed with.
pub struct PubSub {
    subs: Vec<(Node, usize)>,
}

impl PubSub {
    pub closed spec fn subscriptions(&self) -> Seq<(Node, usize)> {
        self.subs@
    }

    pub fn new() -> (r: Self)
        ensures
            r.subscriptions() == Seq::<(Node, usize)>::empty(),
    {
        PubSub { subs: Vec::new() }
    }

    /// Adds `destination`, to receive every batch for a node that `filter` matches.
    pub fn subscribe(&mut self, destination: usize, filter: Node)
        ensures
            final(self).subscriptions() == old(self).subscriptions().push((filter, destination)),
    {
        self.subs.push((filter, destination));
    }

    /// The destinations that a batch for `node` goes to, in order of subscription.
    pub fn recipients(&self, node: Node) -> (r: Vec<usize>)
        ensures
            r@ == matching(self.subscriptions(), node),
    {
        let mut r: Vec<usize> = Vec::new();
        let mut i: usize = 0;
        while i < self.subs.len()
            invariant
                i <= self.subs@.len(),
                r@ == matching(self.subs@.subrange(0, i as int), node),
            decreases self.subs.len() - i,
        {
            let (filter, destination) = self.subs[i];
            assert(self.subs@.subrange(0, i + 1).drop_last() =~= self.subs@.subrange(0, i as int));
            if filter == ALL_NODES || filter == node {
                r.push(destination);
            }
            i += 1;
        }
        assert(self.subs@.subrange(0, i as int) =~= self.subs@);
        r
    }
}

} // verus!
