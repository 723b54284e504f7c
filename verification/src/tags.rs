use vstd::prelude::*;
use vstd::string::StringSliceAdditionalSpecFns;
use vstd::string::StrSliceExecFns;
use vstd::string::StringExecFns;

use crate::model::NodeInfo;

verus! {

/// A named scope over a syntax node, for the tag-style outline of a file:
/// scope names accumulate dot-separated as scopes nest.
#[derive(Debug)]
pub struct ScopeNode {
    pub name: String,
    pub node: NodeInfo,
}

/// A tree of named scopes, searched top-down for the scope containing a
/// node.
#[derive(Debug)]
pub struct LocalScope {
    pub root: ScopeNode,
    pub children: Vec<LocalScope>,
}

/// The scope found for `node` among `ks`, searched in order: the first
/// child whose subtree yields one.
pub open spec fn find_in_kids(ks: Seq<LocalScope>, node: NodeInfo) -> Option<ScopeNode>
    decreases ks,
{
    if ks.len() == 0 {
        None
    } else {
        match containing_scope_v(ks[0], node) {
            Some(s) => Some(s),
            None => find_in_kids(ks.drop_first(), node),
        }
    }
}

/// The scope that owns `node`: the deepest match among the children wins,
/// and the scope itself answers when its own node covers `node`.
pub open spec fn containing_scope_v(s: LocalScope, node: NodeInfo) -> Option<ScopeNode>
    decreases s,
{
    match find_in_kids(s.children@, node) {
        Some(x) => Some(x),
        None => {
            if s.root.node.spec_range().spec_contains(node.spec_range()) {
                Some(s.root)
            } else {
                None
            }
        },
    }
}

impl LocalScope {
    /// Append a nested scope, its name extended with this scope's name and
    /// a separating dot.
    pub fn add_child_node(&mut self, root: ScopeNode)
        ensures
            final(self).root == old(self).root,
            final(self).children@.len() == old(self).children@.len() + 1,
            forall|i: int|
                0 <= i < old(self).children@.len() ==> final(self).children@[i] == old(
                    self,
                ).children@[i],
            final(self).children@.last().root.name@ == old(self).root.name@ + "."@ + root.name@,
            final(self).children@.last().root.node == root.node,
            final(self).children@.last().children@.len() == 0,
    {
        let mut name = self.root.name.clone();
        name.append(".");
        name.append(root.name.as_str());
        self.children.push(
            LocalScope { root: ScopeNode { name, node: root.node }, children: Vec::new() },
        );
    }

    /// The scope containing `node`, preferring the deepest match found
    /// among the children in order.
    pub fn containing_scope(&self, node: NodeInfo) -> (r: Option<&ScopeNode>)
        ensures
            match r {
                Some(s) => containing_scope_v(*self, node) == Some(*s),
                None => containing_scope_v(*self, node) is None,
            },
        decreases *self,
    {
        let ghost ks = self.children@;
        let mut i: usize = 0;
        proof {
            assert(ks.skip(0) =~= ks);
        }
        while i < self.children.len()
            invariant
                0 <= i <= self.children.len(),
                ks == self.children@,
                find_in_kids(ks.skip(i as int), node) == find_in_kids(ks, node),
            decreases self.children.len() - i,
        {
            proof {
                assert(ks.skip(i as int).len() > 0);
                assert(ks.skip(i as int)[0] == ks[i as int]);
                assert(ks.skip(i as int).drop_first() =~= ks.skip(i + 1));
                assert(decreases_to!(*self => self.children@[i as int]));
            }
            let found = self.children[i].containing_scope(node);
            if let Some(s) = found {
                return Some(s);
            }
            i = i + 1;
        }
        proof {
            assert(ks.skip(ks.len() as int) =~= Seq::<LocalScope>::empty());
        }
        if crate::ts_node::contains(&self.root.node, &node) {
            Some(&self.root)
        } else {
            None
        }
    }
}

/// One raw match of a tag query: the kind of thing matched, the matched
/// node, the node of its name, and possibly a parent node.
#[derive(Debug)]
pub struct RawMatchedQuery {
    pub kind: String,
    pub node: NodeInfo,
    pub name: NodeInfo,
    pub parent: Option<NodeInfo>,
}

/// A resolved tag entry: a dotted symbol, the kind of the match, and the
/// line it starts on.
#[derive(Debug)]
pub struct TagEntry {
    pub symbol: String,
    pub kind: String,
    pub line: usize,
}

/// The matches of one file, gathered before resolution against the scope
/// tree; `resolved` holds one slot per match.
#[derive(Debug)]
pub struct FileMatcher {
    pub bytes: Vec<u8>,
    pub matched: Vec<RawMatchedQuery>,
    pub resolved: Vec<Option<TagEntry>>,
}

impl FileMatcher {
    pub fn new(source: &str) -> (r: FileMatcher)
        ensures
            r.bytes@ == source.spec_bytes(),
            r.matched@.len() == 0,
            r.resolved@.len() == 0,
    {
        FileMatcher { bytes: source.as_bytes_vec(), matched: Vec::new(), resolved: Vec::new() }
    }

    pub fn add_match(
        &mut self,
        kind: String,
        node: NodeInfo,
        name: NodeInfo,
        parent: Option<NodeInfo>,
    )
        ensures
            final(self).bytes == old(self).bytes,
            final(self).matched@ == old(self).matched@.push(
                RawMatchedQuery { kind, node, name, parent },
            ),
            final(self).resolved@ == old(self).resolved@.push(None),
    {
        self.matched.push(RawMatchedQuery { kind, node, name, parent });
        self.resolved.push(None);
    }
}

} // verus!
