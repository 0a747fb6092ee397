//! A node of the graph together with its content: an event or an object.

use vstd::prelude::*;
use crate::log::{EntityModel, OCELEvent, OCELObject};

verus! {

/// Mathematical content of a node.
pub enum NodeModel {
    Event(EntityModel),
    Object(EntityModel),
}

/// An event or an object, owned.
#[derive(Debug, PartialEq, Eq)]
pub enum OCELNode {
    Event(OCELEvent),
    Object(OCELObject),
}

/// An event or an object, borrowed from a log.
pub enum OCELNodeRef<'a> {
    Event(&'a OCELEvent),
    Object(&'a OCELObject),
}

impl View for OCELNode {
    type V = NodeModel;

    open spec fn view(&self) -> NodeModel {
        match self {
            OCELNode::Event(ev) => NodeModel::Event(ev@),
            OCELNode::Object(ob) => NodeModel::Object(ob@),
        }
    }
}

impl<'a> View for OCELNodeRef<'a> {
    type V = NodeModel;

    open spec fn view(&self) -> NodeModel {
        match self {
            OCELNodeRef::Event(ev) => NodeModel::Event(ev@),
            OCELNodeRef::Object(ob) => NodeModel::Object(ob@),
        }
    }
}

impl NodeModel {
    /// The identifier of the event or object.
    pub open spec fn id(self) -> Seq<char> {
        match self {
            NodeModel::Event(ev) => ev.id,
            NodeModel::Object(ob) => ob.id,
        }
    }
}

impl OCELNode {
    /// The identifier of the event or object.
    pub fn get_id(&self) -> (id: &String)
        ensures
            id@ == self@.id(),
    {
        match &self {
            OCELNode::Event(ev) => &ev.id,
            OCELNode::Object(ob) => &ob.id,
        }
    }
}

impl<'a> OCELNodeRef<'a> {
    /// An owned copy of the node.
    pub fn cloned(self) -> (node: OCELNode)
        ensures
            node@ == self@,
    {
        match self {
            OCELNodeRef::Event(ev) => OCELNode::Event(ev.clone()),
            OCELNodeRef::Object(ob) => OCELNode::Object(ob.clone()),
        }
    }
}

} // verus!
