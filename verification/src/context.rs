//! The node state of one DAG execution.

use crate::frame::StreamMeta;
use crate::table::Table;
use vstd::prelude::*;

verus! {

/// Execution context for DAG execution: what is known of every node.
///
/// Each context is isolated: several executions may share one switch, never
/// their node data.
pub struct ExecutionContext {
    /// Raw bytes at each DAG node.
    pub node_data: Table<Vec<u8>>,
    /// Per-node stream metadata. Carries provenance context through ForEach
    /// splits so body caps receive the upstream item's metadata.
    pub node_meta: Table<StreamMeta>,
    /// Which nodes hold sequence data. When true, the node's data is a CBOR
    /// sequence that is sent with `is_sequence` on its stream start so the
    /// receiver gets properly framed per-item chunks.
    pub node_is_sequence: Table<bool>,
    /// Nodes whose data is a LIVE-FEED REFERENCE selector, with the reference
    /// URN. The send path labels such a node's outgoing stream with the
    /// REFERENCE urn, never the consuming edge's input media.
    pub node_live_reference: Table<String>,
    /// Nodes whose data lives in a DISK SPOOL, with the spool's path.
    pub node_spool: Table<String>,
    /// Cached max chunk size from the relay.
    pub max_chunk: usize,
}

/// The chunk size in use: the negotiated one, or the default where none was
/// negotiated.
pub open spec fn chunk_size(negotiated: usize, default_max_chunk: usize) -> usize {
    if negotiated == 0 {
        default_max_chunk
    } else {
        negotiated
    }
}

impl ExecutionContext {
    /// A context with no node, for a relay that negotiated a chunk size.
    pub fn new(negotiated: usize, default_max_chunk: usize) -> (ctx: Self)
        ensures
            ctx.node_data@ == Map::<Seq<char>, Vec<u8>>::empty(),
            ctx.node_meta@ == Map::<Seq<char>, StreamMeta>::empty(),
            ctx.node_is_sequence@ == Map::<Seq<char>, bool>::empty(),
            ctx.node_live_reference@ == Map::<Seq<char>, String>::empty(),
            ctx.node_spool@ == Map::<Seq<char>, String>::empty(),
            ctx.max_chunk == chunk_size(negotiated, default_max_chunk),
            negotiated > 0 ==> ctx.max_chunk == negotiated,
            negotiated == 0 ==> ctx.max_chunk == default_max_chunk,
    {
        ExecutionContext {
            node_data: Table::new(),
            node_meta: Table::new(),
            node_is_sequence: Table::new(),
            node_live_reference: Table::new(),
            node_spool: Table::new(),
            max_chunk: if negotiated == 0 {
                default_max_chunk
            } else {
                negotiated
            },
        }
    }

    /// Update the chunk size from the current negotiated limit.
    pub fn update_max_chunk(&mut self, negotiated: usize, default_max_chunk: usize)
        ensures
            *final(self) == (ExecutionContext {
                max_chunk: chunk_size(negotiated, default_max_chunk),
                ..*old(self)
            }),
    {
        self.max_chunk = if negotiated == 0 {
            default_max_chunk
        } else {
            negotiated
        };
    }

    /// Get the current max chunk size.
    pub fn max_chunk(&self) -> (r: usize)
        ensures
            r == self.max_chunk,
    {
        self.max_chunk
    }

    /// Set data for a node.
    pub fn set_node_data(&mut self, node: String, data: Vec<u8>)
        ensures
            final(self).node_data@ == old(self).node_data@.insert(node@, data),
            *final(self) == (ExecutionContext { node_data: final(self).node_data, ..*old(self) }),
    {
        self.node_data.insert(node, data);
    }

    /// Mark a node as carrying a live-feed reference selector.
    pub fn set_node_live_reference(&mut self, node: String, reference_urn: String)
        ensures
            final(self).node_live_reference@ == old(self).node_live_reference@.insert(
                node@,
                reference_urn,
            ),
            *final(self) == (ExecutionContext {
                node_live_reference: final(self).node_live_reference,
                ..*old(self)
            }),
    {
        self.node_live_reference.insert(node, reference_urn);
    }

    /// Get the full node → live-reference-urn map.
    pub fn node_live_reference(&self) -> (r: &Table<String>)
        ensures
            *r == self.node_live_reference,
    {
        &self.node_live_reference
    }

    /// Mark a node's data as living in a disk spool (unbounded intermediate at
    /// a chain-split boundary); downstream feeds stream from the file.
    pub fn set_node_spool(&mut self, node: String, path: String)
        ensures
            final(self).node_spool@ == old(self).node_spool@.insert(node@, path),
            *final(self) == (ExecutionContext { node_spool: final(self).node_spool, ..*old(self) }),
    {
        self.node_spool.insert(node, path);
    }

    /// Get the full node → spool-path map.
    pub fn node_spool(&self) -> (r: &Table<String>)
        ensures
            *r == self.node_spool,
    {
        &self.node_spool
    }

    /// Set stream metadata for a node (provenance context for ForEach
    /// propagation).
    pub fn set_node_meta(&mut self, node: String, meta: StreamMeta)
        ensures
            final(self).node_meta@ == old(self).node_meta@.insert(node@, meta),
            *final(self) == (ExecutionContext { node_meta: final(self).node_meta, ..*old(self) }),
    {
        self.node_meta.insert(node, meta);
    }

    /// Get stream metadata for a node.
    pub fn get_node_meta(&self, node: &str) -> (r: Option<&StreamMeta>)
        ensures
            match r {
                Some(m) => self.node_meta@.contains_key(node@) && *m == self.node_meta@[node@],
                None => !self.node_meta@.contains_key(node@),
            },
    {
        self.node_meta.get(node)
    }

    /// Get the stream metadata of all nodes.
    pub fn node_meta(&self) -> (r: &Table<StreamMeta>)
        ensures
            *r == self.node_meta,
    {
        &self.node_meta
    }

    /// Get mutable reference to the stream metadata of all nodes.
    pub fn node_meta_mut(&mut self) -> (r: &mut Table<StreamMeta>)
        ensures
            *r == old(self).node_meta,
            *final(self) == (ExecutionContext { node_meta: *final(r), ..*old(self) }),
    {
        &mut self.node_meta
    }

    /// Mark a node as holding sequence data, or not.
    pub fn set_node_is_sequence(&mut self, node: String, is_sequence: bool)
        ensures
            final(self).node_is_sequence@ == old(self).node_is_sequence@.insert(node@, is_sequence),
            *final(self) == (ExecutionContext {
                node_is_sequence: final(self).node_is_sequence,
                ..*old(self)
            }),
    {
        self.node_is_sequence.insert(node, is_sequence);
    }

    /// Check if a node holds sequence data.
    pub fn is_node_sequence(&self, node: &str) -> (r: bool)
        ensures
            r == (self.node_is_sequence@.contains_key(node@) && self.node_is_sequence@[node@]),
    {
        match self.node_is_sequence.get(node) {
            Some(b) => *b,
            None => false,
        }
    }

    /// Get the sequence flags of all nodes.
    pub fn node_is_sequence(&self) -> (r: &Table<bool>)
        ensures
            *r == self.node_is_sequence,
    {
        &self.node_is_sequence
    }

    /// Get data for a node.
    pub fn get_node_data(&self, node: &str) -> (r: Option<&Vec<u8>>)
        ensures
            match r {
                Some(d) => self.node_data@.contains_key(node@) && *d == self.node_data@[node@],
                None => !self.node_data@.contains_key(node@),
            },
    {
        self.node_data.get(node)
    }

    /// Get the data of all nodes.
    pub fn node_data(&self) -> (r: &Table<Vec<u8>>)
        ensures
            *r == self.node_data,
    {
        &self.node_data
    }

    /// Get mutable reference to the data of all nodes.
    pub fn node_data_mut(&mut self) -> (r: &mut Table<Vec<u8>>)
        ensures
            *r == old(self).node_data,
            *final(self) == (ExecutionContext { node_data: *final(r), ..*old(self) }),
    {
        &mut self.node_data
    }

    /// Consume and return the node data.
    pub fn into_node_data(self) -> (r: Table<Vec<u8>>)
        ensures
            r == self.node_data,
    {
        self.node_data
    }

    /// End the execution and return accumulated node data.
    pub fn shutdown(self) -> (r: Table<Vec<u8>>)
        ensures
            r == self.node_data,
    {
        self.into_node_data()
    }
}

} // verus!
