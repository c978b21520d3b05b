//! A resolved dependency graph: one node per resolved package, and edges from
//! each consumer to its dependencies.
use crate::ident::Kid;
use vstd::prelude::*;

verus! {

/// The kind of a dependency edge.
#[derive(Clone, Copy, PartialEq, Eq, Structural, Debug)]
pub enum DepKind {
    Normal,
    Dev,
    Build,
}

/// A resolved package.
#[derive(Clone, Debug)]
pub struct Krate {
    /// The package's unique identifier in the graph
    pub id: Kid,
    pub name: String,
    /// The resolved version, as text
    pub version: String,
    /// Where the package comes from (a registry or repository), if not local
    pub source: Option<String>,
    /// The directory holding the package's manifest
    pub manifest_dir: String,
}

/// A dependency of `to` by `from`.
#[derive(Clone, Copy, Debug)]
pub struct Edge {
    pub from: usize,
    pub to: usize,
    pub kind: DepKind,
}

/// The graph: packages in their canonical order, and the edges between them
/// in no particular order.
pub struct Krates {
    pub krates: Vec<Krate>,
    pub edges: Vec<Edge>,
}

impl Krates {
    /// Every edge joins two nodes of the graph.
    pub open spec fn wf(&self) -> bool {
        forall|e: int|
            0 <= e < self.edges@.len() ==> #[trigger] self.edges@[e].from < self.krates@.len()
                && self.edges@[e].to < self.krates@.len()
    }

    /// The number of nodes.
    pub fn len(&self) -> (r: usize)
        ensures
            r == self.krates@.len(),
    {
        self.krates.len()
    }

    /// The node of the package `kid`, if the graph holds it.
    pub fn nid_for_kid(&self, kid: &Kid) -> (r: Option<usize>)
        ensures
            r matches Some(i) ==> i < self.krates@.len() && self.krates@[i as int].id.repr@
                == kid.repr@,
            r is None ==> forall|i: int|
                0 <= i < self.krates@.len() ==> #[trigger] self.krates@[i].id.repr@ != kid.repr@,
    {
        let mut i: usize = 0;
        while i < self.krates.len()
            invariant
                i <= self.krates@.len(),
                forall|j: int| 0 <= j < i ==> #[trigger] self.krates@[j].id.repr@ != kid.repr@,
            decreases self.krates@.len() - i,
        {
            let c = crate::ident::compare_str(self.krates[i].id.repr.as_str(), kid.repr.as_str());
            if let std::cmp::Ordering::Equal = c {
                proof {
                    crate::ident::lemma_seq_cmp(self.krates@[i as int].id.repr@, kid.repr@);
                }
                return Some(i);
            }
            proof {
                crate::ident::lemma_seq_cmp(self.krates@[i as int].id.repr@, kid.repr@);
            }
            i = i + 1;
        }
        None
    }
}

} // verus!
