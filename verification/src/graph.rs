//! The packages of a workspace and what each of them was resolved to depend on.

use vstd::prelude::*;

verus! {

/// A package of the graph. It is local where it has no `source`.
#[derive(Debug, Clone)]
pub struct Package {
    pub id: String,
    pub name: String,
    pub source: Option<String>,
    pub manifest_path: String,
}

/// The dependencies that one package was resolved to, by their identifiers.
#[derive(Debug)]
pub struct ResolveNode {
    pub id: String,
    pub dependencies: Vec<String>,
}

/// The resolution table.
#[derive(Debug)]
pub struct Resolve {
    pub nodes: Vec<ResolveNode>,
}

/// The packages of a workspace with their resolution.
#[derive(Debug)]
pub struct Metadata {
    pub packages: Vec<Package>,
    pub resolve: Resolve,
}

impl Metadata {
    /// The package at `j` is the first one with the identifier `id`.
    pub open spec fn is_first_package(&self, id: Seq<char>, j: int) -> bool {
        &&& 0 <= j < self.packages@.len()
        &&& self.packages@[j].id@ == id
        &&& forall|t: int| 0 <= t < j ==> (#[trigger] self.packages@[t]).id@ != id
    }

    /// The node at `n` is the first one with the identifier `id`.
    pub open spec fn is_first_node(&self, id: Seq<char>, n: int) -> bool {
        &&& 0 <= n < self.resolve.nodes@.len()
        &&& self.resolve.nodes@[n].id@ == id
        &&& forall|t: int| 0 <= t < n ==> (#[trigger] self.resolve.nodes@[t]).id@ != id
    }

    /// Some package has the identifier `id`.
    pub open spec fn has_package(&self, id: Seq<char>) -> bool {
        exists|j: int| 0 <= j < self.packages@.len() && (#[trigger] self.packages@[j]).id@ == id
    }

    /// Some node has the identifier `id`.
    pub open spec fn has_node(&self, id: Seq<char>) -> bool {
        exists|n: int|
            0 <= n < self.resolve.nodes@.len() && (#[trigger] self.resolve.nodes@[n]).id@ == id
    }

    /// The graph is closed: every identifier that a node depends on is that
    /// of a package, and every local package has a node.
    pub open spec fn closed(&self) -> bool {
        &&& forall|n: int, k: int|
            0 <= n < self.resolve.nodes@.len() && 0 <= k < self.resolve.nodes@[n].dependencies@.len()
                ==> self.has_package(#[trigger] self.resolve.nodes@[n].dependencies@[k]@)
        &&& forall|j: int|
            0 <= j < self.packages@.len() && (#[trigger] self.packages@[j]).source is None
                ==> self.has_node(self.packages@[j].id@)
    }

    /// The `k`-th dependency of the node at `n`, which is the node of `id`,
    /// is the local package at `d`.
    pub open spec fn is_edge(&self, id: Seq<char>, n: int, k: int, d: int) -> bool {
        &&& self.is_first_node(id, n)
        &&& 0 <= k < self.resolve.nodes@[n].dependencies@.len()
        &&& self.is_first_package(self.resolve.nodes@[n].dependencies@[k]@, d)
        &&& self.packages@[d].source is None
    }

    /// The package with the identifier `id` depends on the local package at `d`.
    pub open spec fn depends_on(&self, id: Seq<char>, d: int) -> bool {
        exists|n: int, k: int| #[trigger] self.is_edge(id, n, k, d)
    }

    /// The first package with the identifier `id`.
    pub fn find_package(&self, id: &String) -> (r: Option<usize>)
        ensures
            match r {
                Some(j) => self.is_first_package(id@, j as int),
                None => !self.has_package(id@),
            },
    {
        let mut j: usize = 0;
        while j < self.packages.len()
            invariant
                j <= self.packages@.len(),
                forall|t: int| 0 <= t < j ==> (#[trigger] self.packages@[t]).id@ != id@,
            decreases self.packages@.len() - j,
        {
            if self.packages[j].id == *id {
                return Some(j);
            }
            j += 1;
        }
        None
    }

    /// The first node with the identifier `id`.
    pub fn find_node(&self, id: &String) -> (r: Option<usize>)
        ensures
            match r {
                Some(n) => self.is_first_node(id@, n as int),
                None => !self.has_node(id@),
            },
    {
        let mut n: usize = 0;
        while n < self.resolve.nodes.len()
            invariant
                n <= self.resolve.nodes@.len(),
                forall|t: int| 0 <= t < n ==> (#[trigger] self.resolve.nodes@[t]).id@ != id@,
            decreases self.resolve.nodes@.len() - n,
        {
            if self.resolve.nodes[n].id == *id {
                return Some(n);
            }
            n += 1;
        }
        None
    }

    /// The first package with the name `name`.
    pub fn find_package_by_name(&self, name: &String) -> (r: Option<usize>)
        ensures
            match r {
                Some(j) => j < self.packages@.len() && self.packages@[j as int].name@ == name@
                    && forall|t: int| 0 <= t < j ==> (#[trigger] self.packages@[t]).name@ != name@,
                None => forall|t: int|
                    0 <= t < self.packages@.len() ==> (#[trigger] self.packages@[t]).name@ != name@,
            },
    {
        let mut j: usize = 0;
        while j < self.packages.len()
            invariant
                j <= self.packages@.len(),
                forall|t: int| 0 <= t < j ==> (#[trigger] self.packages@[t]).name@ != name@,
            decreases self.packages@.len() - j,
        {
            if self.packages[j].name == *name {
                return Some(j);
            }
            j += 1;
        }
        None
    }

    /// Whether the graph is closed.
    pub fn is_closed(&self) -> (r: bool)
        ensures
            r == self.closed(),
    {
        let mut n: usize = 0;
        while n < self.resolve.nodes.len()
            invariant
                n <= self.resolve.nodes@.len(),
                forall|a: int, k: int|
                    0 <= a < n && 0 <= k < self.resolve.nodes@[a].dependencies@.len()
                        ==> self.has_package(#[trigger] self.resolve.nodes@[a].dependencies@[k]@),
            decreases self.resolve.nodes@.len() - n,
        {
            let mut k: usize = 0;
            while k < self.resolve.nodes[n].dependencies.len()
                invariant
                    n < self.resolve.nodes@.len(),
                    k <= self.resolve.nodes@[n as int].dependencies@.len(),
                    forall|t: int|
                        0 <= t < k ==> self.has_package(
                            #[trigger] self.resolve.nodes@[n as int].dependencies@[t]@,
                        ),
                decreases self.resolve.nodes@[n as int].dependencies@.len() - k,
            {
                if self.find_package(&self.resolve.nodes[n].dependencies[k]).is_none() {
                    return false;
                }
                k += 1;
            }
            n += 1;
        }
        let mut j: usize = 0;
        while j < self.packages.len()
            invariant
                j <= self.packages@.len(),
                forall|t: int|
                    0 <= t < j && (#[trigger] self.packages@[t]).source is None ==> self.has_node(
                        self.packages@[t].id@,
                    ),
            decreases self.packages@.len() - j,
        {
            if self.packages[j].source.is_none() && self.find_node(&self.packages[j].id).is_none() {
                return false;
            }
            j += 1;
        }
        true
    }
}

} // verus!
