//! What a handler asks the delivery substrate to send.

use crate::id_set::{IdSet, NodeId};
use vstd::prelude::*;

verus! {

/// One message and the nodes it is to be sent to. The substrate may reorder
/// or lose it on the way to any of them; it delivers it to none of them twice.
#[derive(Debug, PartialEq, Eq, Hash)]
pub struct Outbound<M> {
    pub to: IdSet,
    pub msg: M,
}

pub ghost struct OutboundView<V> {
    pub to: Set<NodeId>,
    pub msg: V,
}

impl<M: View> View for Outbound<M> {
    type V = OutboundView<M::V>;

    open spec fn view(&self) -> OutboundView<M::V> {
        OutboundView { to: self.to@, msg: self.msg@ }
    }
}

/// The content of a list of outbound messages, in order.
pub open spec fn emitted<M: View>(out: Seq<Outbound<M>>) -> Seq<OutboundView<M::V>> {
    Seq::new(out.len(), |i: int| out[i]@)
}

/// A message for one node.
pub fn unicast<M: View>(target: NodeId, msg: M) -> (o: Outbound<M>)
    ensures
        o@ == (OutboundView { to: set![target], msg: msg@ }),
{
    let mut to = IdSet::new();
    to.insert(target);
    assert(to@ =~= set![target]);
    Outbound { to, msg }
}

/// A message for every node of `targets`.
pub fn broadcast<M: View>(targets: &IdSet, msg: M) -> (o: Outbound<M>)
    ensures
        o@ == (OutboundView { to: targets@, msg: msg@ }),
{
    Outbound { to: targets.clone(), msg }
}

} // verus!
