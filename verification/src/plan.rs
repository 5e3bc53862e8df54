//! Machine plans: the branching graph of capabilities that a run executes.

use crate::table::Table;
use vstd::prelude::*;
use vstd::string::*;

verus! {

/// The stable identity of a strand step, minted per plan.
pub type StepToken = String;

/// How many items an input slot takes.
#[derive(Debug, Clone, Copy, PartialEq, Eq, Structural)]
pub enum InputCardinality {
    Single,
    Sequence,
}

/// What an edge of a plan carries.
#[derive(Debug)]
pub enum EdgeType {
    /// The producer's output is the consumer's main input.
    Direct,
    /// A ForEach node hands single items to its body.
    Iteration,
    /// A producer feeds a Collect node.
    Collection,
    /// The producer's output feeds a further argument of the consumer.
    Arg { media_urn: String },
}

/// What a node of a plan does.
#[derive(Debug)]
pub enum ExecutionNodeType {
    Cap { cap_urn: String },
    InputSlot { slot_name: String, expected_media_urn: String, cardinality: InputCardinality },
    Output { output_name: String, source_node: String },
    ForEach { token_id: StepToken, input_node: String, body_entry: String, body_exit: String },
    Collect { output_media_urn: Option<String> },
}

/// A node of a plan.
#[derive(Debug)]
pub struct MachineNode {
    pub id: String,
    pub node_type: ExecutionNodeType,
}

/// An edge of a plan.
#[derive(Debug)]
pub struct MachinePlanEdge {
    pub from_node: String,
    pub to_node: String,
    pub edge_type: EdgeType,
}

/// A plan: named nodes and the edges among them.
pub struct MachinePlan {
    pub name: String,
    pub nodes: Table<MachineNode>,
    pub edges: Vec<MachinePlanEdge>,
}

impl Clone for EdgeType {
    fn clone(&self) -> (r: Self)
        ensures
            r == *self,
    {
        match self {
            EdgeType::Direct => EdgeType::Direct,
            EdgeType::Iteration => EdgeType::Iteration,
            EdgeType::Collection => EdgeType::Collection,
            EdgeType::Arg { media_urn } => EdgeType::Arg { media_urn: media_urn.clone() },
        }
    }
}

impl Clone for ExecutionNodeType {
    fn clone(&self) -> (r: Self)
        ensures
            r == *self,
    {
        match self {
            ExecutionNodeType::Cap { cap_urn } => ExecutionNodeType::Cap {
                cap_urn: cap_urn.clone(),
            },
            ExecutionNodeType::InputSlot { slot_name, expected_media_urn, cardinality } => {
                ExecutionNodeType::InputSlot {
                    slot_name: slot_name.clone(),
                    expected_media_urn: expected_media_urn.clone(),
                    cardinality: *cardinality,
                }
            },
            ExecutionNodeType::Output { output_name, source_node } => ExecutionNodeType::Output {
                output_name: output_name.clone(),
                source_node: source_node.clone(),
            },
            ExecutionNodeType::ForEach { token_id, input_node, body_entry, body_exit } => {
                ExecutionNodeType::ForEach {
                    token_id: token_id.clone(),
                    input_node: input_node.clone(),
                    body_entry: body_entry.clone(),
                    body_exit: body_exit.clone(),
                }
            },
            ExecutionNodeType::Collect { output_media_urn } => ExecutionNodeType::Collect {
                output_media_urn: crate::text::clone_opt(output_media_urn),
            },
        }
    }
}

impl Clone for MachineNode {
    fn clone(&self) -> (r: Self)
        ensures
            r == *self,
    {
        MachineNode { id: self.id.clone(), node_type: self.node_type.clone() }
    }
}

impl Clone for MachinePlanEdge {
    fn clone(&self) -> (r: Self)
        ensures
            r == *self,
    {
        MachinePlanEdge {
            from_node: self.from_node.clone(),
            to_node: self.to_node.clone(),
            edge_type: self.edge_type.clone(),
        }
    }
}

impl MachineNode {
    /// A node that invokes a capability.
    pub fn cap(id: &str, cap_urn: &str) -> (n: Self)
        ensures
            n.id@ == id@,
            n.node_type matches ExecutionNodeType::Cap { cap_urn: u } && u@ == cap_urn@,
    {
        MachineNode {
            id: id.to_owned(),
            node_type: ExecutionNodeType::Cap { cap_urn: cap_urn.to_owned() },
        }
    }

    /// A node that holds an initial input.
    pub fn input_slot(
        id: &str,
        slot_name: &str,
        expected_media_urn: &str,
        cardinality: InputCardinality,
    ) -> (n: Self)
        ensures
            n.id@ == id@,
            n.node_type matches ExecutionNodeType::InputSlot {
                slot_name: s,
                expected_media_urn: m,
                cardinality: c,
            } && s@ == slot_name@ && m@ == expected_media_urn@ && c == cardinality,
    {
        MachineNode {
            id: id.to_owned(),
            node_type: ExecutionNodeType::InputSlot {
                slot_name: slot_name.to_owned(),
                expected_media_urn: expected_media_urn.to_owned(),
                cardinality,
            },
        }
    }

    /// A node that marks a producer's output as a terminal of the plan.
    pub fn output(id: &str, output_name: &str, source_node: &str) -> (n: Self)
        ensures
            n.id@ == id@,
            n.node_type matches ExecutionNodeType::Output { output_name: o, source_node: s } && o@
                == output_name@ && s@ == source_node@,
    {
        MachineNode {
            id: id.to_owned(),
            node_type: ExecutionNodeType::Output {
                output_name: output_name.to_owned(),
                source_node: source_node.to_owned(),
            },
        }
    }

    /// A node that maps a body over a sequence.
    pub fn for_each_token(
        id: &str,
        input_node: &str,
        body_entry: &str,
        body_exit: &str,
        token_id: StepToken,
    ) -> (n: Self)
        ensures
            n.id@ == id@,
            n.node_type matches ExecutionNodeType::ForEach {
                token_id: t,
                input_node: i,
                body_entry: e,
                body_exit: x,
            } && t == token_id && i@ == input_node@ && e@ == body_entry@ && x@ == body_exit@,
    {
        MachineNode {
            id: id.to_owned(),
            node_type: ExecutionNodeType::ForEach {
                token_id,
                input_node: input_node.to_owned(),
                body_entry: body_entry.to_owned(),
                body_exit: body_exit.to_owned(),
            },
        }
    }
}

impl MachinePlanEdge {
    /// An edge that carries the main input.
    pub fn direct(from_node: &str, to_node: &str) -> (e: Self)
        ensures
            e.from_node@ == from_node@,
            e.to_node@ == to_node@,
            e.edge_type is Direct,
    {
        MachinePlanEdge {
            from_node: from_node.to_owned(),
            to_node: to_node.to_owned(),
            edge_type: EdgeType::Direct,
        }
    }

    /// An edge that hands single items to a ForEach body.
    pub fn iteration(from_node: &str, to_node: &str) -> (e: Self)
        ensures
            e.from_node@ == from_node@,
            e.to_node@ == to_node@,
            e.edge_type is Iteration,
    {
        MachinePlanEdge {
            from_node: from_node.to_owned(),
            to_node: to_node.to_owned(),
            edge_type: EdgeType::Iteration,
        }
    }
}

impl MachinePlan {
    /// A plan without nodes or edges.
    pub fn new(name: &str) -> (p: Self)
        ensures
            p.name@ == name@,
            p.nodes@ == Map::<Seq<char>, MachineNode>::empty(),
            p.nodes.order() == Seq::<Seq<char>>::empty(),
            p.edges@ == Seq::<MachinePlanEdge>::empty(),
    {
        MachinePlan { name: name.to_owned(), nodes: Table::new(), edges: Vec::new() }
    }

    /// Add a node under its id; a node that was there under the id is replaced.
    pub fn add_node(&mut self, node: MachineNode)
        ensures
            final(self).name == old(self).name,
            final(self).nodes@ == old(self).nodes@.insert(node.id@, node),
            final(self).nodes.order() == if old(self).nodes@.contains_key(node.id@) {
                old(self).nodes.order()
            } else {
                old(self).nodes.order().push(node.id@)
            },
            final(self).edges == old(self).edges,
    {
        self.nodes.insert(node.id.clone(), node);
    }

    /// Add an edge behind those that are there.
    pub fn add_edge(&mut self, edge: MachinePlanEdge)
        ensures
            final(self).name == old(self).name,
            final(self).nodes == old(self).nodes,
            final(self).edges@ == old(self).edges@.push(edge),
    {
        self.edges.push(edge);
    }
}

/// Whether `id` names a capability node of a plan.
pub open spec fn is_cap_node(nodes: Map<Seq<char>, MachineNode>, id: Seq<char>) -> bool {
    nodes.contains_key(id) && nodes[id].node_type is Cap
}

/// Whether a node invokes a capability.
pub fn invokes_cap(node: &MachineNode) -> (r: bool)
    ensures
        r == (node.node_type is Cap),
{
    match &node.node_type {
        ExecutionNodeType::Cap { .. } => true,
        _ => false,
    }
}

} // verus!
