//! The disjoint-set client: a store of named records with parent links, the
//! name index, root resolution, union by size, and the bulk loading path.

use crate::union_find::model::{
    appended, appended_all, chain_fuel, first_out_of_range, inserted, is_root, lemma_append_wf,
    lemma_count_roots_bounds, lemma_count_roots_ge_one, lemma_first_out_of_range_at,
    lemma_first_out_of_range_none, lemma_merge_wf, lemma_name_map_absent, lemma_name_map_found,
    lemma_name_map_in_range, lemma_root_of_props, merged_roots, name_index, name_root, node_total,
    pair_in_range, root_from, root_of, same_set, store_new, united, united_all, united_names,
    wf_store, StoreView,
};
use vstd::prelude::*;

verus! {

/// A record in the store.
#[derive(Debug)]
struct Node {
    /// Unique name of the record.
    uuid: String,
    /// Position of the record this one defers to; equal to `index` exactly
    /// when this record is a representative.
    parent_index: usize,
    /// Position where the record is stored.
    index: usize,
    /// Number of records in the set this one roots; meaningful only at a
    /// representative.
    size: usize,
}

/// A connection between two zero-based node positions, as fed to the bulk
/// loader.
#[derive(Hash, Eq, PartialEq, Debug)]
pub struct BulkConnection {
    /// Zero-based position of the first node.
    pub a: usize,
    /// Zero-based position of the second node.
    pub b: usize,
}

/// Rejection of a bulk connection: a zero-based position lands outside the
/// store. The store keeps whatever state the pairs before the offending one
/// produced.
#[derive(Debug, PartialEq, Eq, Structural, Clone, Copy)]
pub struct BoundsError {
    /// The offending zero-based position.
    pub index: usize,
}

/// A client that manages a store of named records and their connections.
#[derive(Debug)]
pub struct Client {
    /// Storage for the records; position 0 holds the reserved placeholder.
    nodes: Vec<Node>,
    /// Number of disjoint sets among the real records.
    set_count: usize,
}

impl BulkConnection {
    /// Constructs a new `BulkConnection` from two zero-based positions.
    pub fn new(a: usize, b: usize) -> (r: Self)
        ensures
            r.a == a,
            r.b == b,
    {
        BulkConnection { a, b }
    }
}

impl View for Client {
    type V = StoreView;

    closed spec fn view(&self) -> StoreView {
        StoreView {
            names: self.nodes@.map_values(|n: Node| n.uuid@),
            parents: self.nodes@.map_values(|n: Node| n.parent_index as int),
            sizes: self.nodes@.map_values(|n: Node| n.size as int),
            set_count: self.set_count as int,
        }
    }
}

impl Client {
    /// Each record knows the position it is stored at.
    pub closed spec fn indices_consistent(&self) -> bool {
        forall|i: int|
            0 <= i < self.nodes@.len() ==> (#[trigger] self.nodes@[i].index) as int == i
    }

    /// The store is well formed.
    pub open spec fn wf(&self) -> bool {
        wf_store(self@) && self.indices_consistent()
    }

    /// Constructs a new `Client` holding only the placeholder record.
    pub fn new() -> (r: Self)
        ensures
            r.wf(),
            r@ == store_new(),
    {
        let mut nodes: Vec<Node> = Vec::new();
        let root_node = Node { uuid: "root".to_owned(), parent_index: 0, index: 0, size: 0 };
        nodes.push(root_node);
        let r = Client { nodes, set_count: 0 };
        proof {
            assert(r@.names =~= store_new().names);
            assert(r@.parents =~= store_new().parents);
            assert(r@.sizes =~= store_new().sizes);
            assert(r@ =~= store_new());
            assert(root_from(r@.parents, 0, chain_fuel(r@)) == 0);
        }
        r
    }

    /// The number of sets that share no connection with another set.
    pub fn disjoint_set_count(&self) -> (r: usize)
        ensures
            r as int == self@.set_count,
    {
        self.set_count
    }

    /// The number of unique real records in the store.
    pub fn node_count(&self) -> (r: usize)
        requires
            self.wf(),
        ensures
            r as int == node_total(self@),
    {
        self.nodes.len() - 1
    }

    /// Gets the position of the record registered under `uuid`, or the
    /// placeholder position 0 when no record carries that name.
    pub fn node_index(&self, uuid: &str) -> (r: usize)
        requires
            self.wf(),
        ensures
            name_index(self@).contains_key(uuid@) ==> {
                &&& r as int == name_index(self@)[uuid@]
                &&& 1 <= (r as int) < self@.parents.len()
            },
            !name_index(self@).contains_key(uuid@) ==> r == 0,
    {
        let key: String = uuid.to_owned();
        let ghost names = self@.names;
        let mut i: usize = self.nodes.len();
        while i > 1
            invariant
                self.wf(),
                key@ == uuid@,
                names == self@.names,
                1 <= i as int <= names.len(),
                forall|j: int| i as int <= j < names.len() ==> #[trigger] names[j] != uuid@,
            decreases i,
        {
            let idx: usize = i - 1;
            if self.nodes[idx].uuid == key {
                proof {
                    assert(names[idx as int] == uuid@);
                    lemma_name_map_found(names, names.len() as int, uuid@, idx as int);
                }
                return idx;
            }
            i = i - 1;
        }
        proof {
            lemma_name_map_absent(names, names.len() as int, uuid@);
        }
        0
    }

    /// Determines whether a record is registered under `uuid`.
    pub fn node_exists(&self, uuid: &str) -> (r: bool)
        requires
            self.wf(),
        ensures
            r == name_index(self@).contains_key(uuid@),
    {
        self.node_index(uuid) > 0
    }

    /// Finds the representative of the record at `node_index` by walking
    /// parent links until a self-parented record is reached.
    pub fn find_root_index_bulk(&self, node_index: usize) -> (r: usize)
        requires
            self.wf(),
            (node_index as int) < self@.parents.len(),
        ensures
            r as int == root_of(self@.parents, node_index as int),
    {
        let ghost p = self@.parents;
        let ghost mut fuel: nat = chain_fuel(self@);
        let mut cur: usize = node_index;
        proof {
            lemma_root_of_props(self@, node_index as int);
        }
        while self.nodes[cur].parent_index != cur
            invariant
                self.wf(),
                p == self@.parents,
                (cur as int) < p.len(),
                is_root(p, root_from(p, cur as int, fuel)),
                root_from(p, cur as int, fuel) == root_of(p, node_index as int),
            decreases fuel,
        {
            proof {
                assert(p[cur as int] != cur as int);
                assert(fuel > 0);
                assert(0 <= p[cur as int] < p.len());
                fuel = (fuel - 1) as nat;
            }
            cur = self.nodes[cur].parent_index;
        }
        cur
    }

    /// Finds the representative of the record registered under `uuid`, or the
    /// placeholder position 0 when no record carries that name.
    pub fn find_root_index(&self, uuid: &str) -> (r: usize)
        requires
            self.wf(),
        ensures
            r as int == name_root(self@, uuid@),
    {
        let idx: usize = self.node_index(uuid);
        if idx > 0 {
            self.find_root_index_bulk(idx)
        } else {
            0
        }
    }

    /// Determines whether two named records are connected through any path.
    pub fn nodes_connected(&self, uuid_a: &str, uuid_b: &str) -> (r: bool)
        requires
            self.wf(),
        ensures
            r == same_set(self@, uuid_a@, uuid_b@),
    {
        let uuid_a_root: usize = self.find_root_index(uuid_a);
        let uuid_b_root: usize = self.find_root_index(uuid_b);
        uuid_a_root > 0 && uuid_a_root == uuid_b_root
    }

    /// Re-parents the smaller of two distinct representatives under the
    /// larger (the second under the first on a tie), accumulates the sizes,
    /// and decrements the disjoint-set counter.
    fn merge_at_roots(&mut self, uuid_a_root: usize, uuid_b_root: usize)
        requires
            old(self).wf(),
            1 <= (uuid_a_root as int) < old(self)@.parents.len(),
            1 <= (uuid_b_root as int) < old(self)@.parents.len(),
            is_root(old(self)@.parents, uuid_a_root as int),
            is_root(old(self)@.parents, uuid_b_root as int),
            uuid_a_root != uuid_b_root,
        ensures
            final(self).wf(),
            final(self)@ == merged_roots(old(self)@, uuid_a_root as int, uuid_b_root as int),
    {
        proof {
            lemma_merge_wf(old(self)@, uuid_a_root as int, uuid_b_root as int);
            lemma_count_roots_ge_one(
                old(self)@.parents,
                old(self)@.parents.len() as int,
                uuid_a_root as int,
            );
        }
        let n: usize = self.nodes.len();
        let size_a: usize = self.nodes[uuid_a_root].size;
        let size_b: usize = self.nodes[uuid_b_root].size;
        proof {
            assert(size_a as int + size_b as int <= n - 1);
        }
        if size_a < size_b {
            self.nodes[uuid_a_root].parent_index = uuid_b_root;
            self.nodes[uuid_b_root].size = size_b + size_a;
        } else {
            self.nodes[uuid_b_root].parent_index = uuid_a_root;
            self.nodes[uuid_a_root].size = size_a + size_b;
        }
        self.set_count = self.set_count - 1;
        proof {
            let v = old(self)@;
            let w = merged_roots(v, uuid_a_root as int, uuid_b_root as int);
            assert(self@.names =~= w.names);
            assert(self@.parents =~= w.parents);
            assert(self@.sizes =~= w.sizes);
            assert(self@ =~= w);
            assert forall|i: int|
                0 <= i < self.nodes@.len() implies (#[trigger] self.nodes@[i].index) as int
                == i by {
                assert(old(self).nodes@[i].index as int == i);
            }
        }
    }

    /// Connects the records registered under two unique names, merging their
    /// sets by size. Names that share a representative are left as they are,
    /// and a name that is not registered is ignored, so the placeholder never
    /// joins a real set and the counter stays in step with the sets.
    pub fn connect_nodes(&mut self, uuid_a: &str, uuid_b: &str)
        requires
            old(self).wf(),
        ensures
            final(self).wf(),
            final(self)@ == united_names(old(self)@, uuid_a@, uuid_b@),
    {
        let uuid_a_root: usize = self.find_root_index(uuid_a);
        let uuid_b_root: usize = self.find_root_index(uuid_b);

        if uuid_a_root == uuid_b_root || uuid_a_root == 0 || uuid_b_root == 0 {
            return;
        }
        proof {
            let v = self@;
            let m = name_index(v);
            lemma_name_map_in_range(v.names, v.names.len() as int, uuid_a@);
            lemma_name_map_in_range(v.names, v.names.len() as int, uuid_b@);
            lemma_root_of_props(v, m[uuid_a@]);
            lemma_root_of_props(v, m[uuid_b@]);
        }
        self.merge_at_roots(uuid_a_root, uuid_b_root);
    }

    /// Adds a record for every name in the list, in order, indexing each and
    /// counting each as a fresh set; the batch path does not check for
    /// pre-existing names, so a duplicate creates a second record that
    /// shadows the first in the name index.
    pub fn add_nodes_bulk(&mut self, uuid_list: Vec<String>)
        requires
            old(self).wf(),
        ensures
            final(self).wf(),
            final(self)@ == appended_all(old(self)@, uuid_list@.map_values(|s: String| s@)),
    {
        let ghost names = uuid_list@.map_values(|s: String| s@);
        let mut k: usize = 0;
        while k < uuid_list.len()
            invariant
                self.wf(),
                k <= uuid_list@.len(),
                names == uuid_list@.map_values(|s: String| s@),
                self@ == appended_all(old(self)@, names.take(k as int)),
            decreases uuid_list@.len() - k,
        {
            let ghost prev = self@;
            proof {
                lemma_count_roots_bounds(prev.parents, prev.parents.len() as int);
            }
            let idx: usize = self.nodes.len();
            let node = Node { uuid: uuid_list[k].clone(), parent_index: idx, index: idx, size: 1 };
            self.nodes.push(node);
            self.set_count = self.set_count + 1;
            proof {
                lemma_append_wf(prev, names[k as int]);
                assert(self@.names =~= prev.names.push(names[k as int]));
                assert(self@.parents =~= prev.parents.push(prev.parents.len() as int));
                assert(self@.sizes =~= prev.sizes.push(1));
                assert(self@ =~= appended(prev, names[k as int]));
                assert(names.take(k + 1).drop_last() =~= names.take(k as int));
                assert(names.take(k + 1).last() == names[k as int]);
                assert forall|i: int|
                    0 <= i < self.nodes@.len() implies (#[trigger] self.nodes@[i].index) as int
                    == i by {
                    if i < prev.parents.len() {
                        assert(self.nodes@[i].index as int == i);
                    }
                }
            }
            k = k + 1;
        }
        proof {
            assert(names.take(names.len() as int) =~= names);
        }
    }

    /// Connects a collection of zero-based position pairs, strictly in
    /// sequence order; each position is shifted by one to skip the
    /// placeholder. A position outside the store is rejected with a bounds
    /// error, and the store keeps the state that the pairs before the
    /// offending one produced.
    pub fn connect_nodes_bulk(&mut self, connections: Vec<BulkConnection>) -> (r: Result<
        (),
        BoundsError,
    >)
        requires
            old(self).wf(),
        ensures
            final(self).wf(),
            ({
                let pairs = connections@.map_values(|c: BulkConnection| (c.a as int, c.b as int));
                let n = old(self)@.parents.len() as int;
                let k = first_out_of_range(pairs, n);
                &&& final(self)@ == united_all(old(self)@, pairs.take(k))
                &&& k == pairs.len() ==> r == Ok::<(), BoundsError>(())
                &&& k < pairs.len() ==> r == Err::<(), BoundsError>(
                    (BoundsError {
                        index: if pairs[k].0 + 1 >= n {
                            connections@[k].a
                        } else {
                            connections@[k].b
                        },
                    }),
                )
            }),
    {
        let ghost pairs = connections@.map_values(|c: BulkConnection| (c.a as int, c.b as int));
        let ghost n0 = old(self)@.parents.len() as int;
        let mut k: usize = 0;
        while k < connections.len()
            invariant
                self.wf(),
                k <= connections@.len(),
                pairs == connections@.map_values(|c: BulkConnection| (c.a as int, c.b as int)),
                n0 == old(self)@.parents.len() as int,
                self@.parents.len() as int == n0,
                forall|j: int| 0 <= j < k ==> pair_in_range(#[trigger] pairs[j], n0),
                self@ == united_all(old(self)@, pairs.take(k as int)),
            decreases connections@.len() - k,
        {
            let ghost prev = self@;
            let n: usize = self.nodes.len();
            let ca: usize = connections[k].a;
            let cb: usize = connections[k].b;
            if ca >= n - 1 {
                proof {
                    lemma_first_out_of_range_at(pairs, n0, k as int);
                }
                return Err(BoundsError { index: ca });
            }
            if cb >= n - 1 {
                proof {
                    lemma_first_out_of_range_at(pairs, n0, k as int);
                }
                return Err(BoundsError { index: cb });
            }
            let uuid_a_root: usize = self.find_root_index_bulk(ca + 1);
            let uuid_b_root: usize = self.find_root_index_bulk(cb + 1);
            proof {
                lemma_root_of_props(prev, ca + 1);
                lemma_root_of_props(prev, cb + 1);
                assert(pairs.take(k + 1).drop_last() =~= pairs.take(k as int));
                assert(pairs.take(k + 1).last() == pairs[k as int]);
            }
            if uuid_a_root == uuid_b_root {
                proof {
                    assert(self@ == united(prev, ca + 1, cb + 1));
                }
            } else {
                self.merge_at_roots(uuid_a_root, uuid_b_root);
                proof {
                    assert(self@ == united(prev, ca + 1, cb + 1));
                }
            }
            k = k + 1;
        }
        proof {
            lemma_first_out_of_range_none(pairs, n0);
            assert(pairs.take(pairs.len() as int) =~= pairs);
        }
        Ok(())
    }

    /// Adds a record under the given unique name; a name that is already
    /// registered is silently absorbed.
    pub fn add_node(&mut self, uuid: &str)
        requires
            old(self).wf(),
        ensures
            final(self).wf(),
            final(self)@ == inserted(old(self)@, uuid@),
    {
        if !self.node_exists(uuid) {
            proof {
                lemma_count_roots_bounds(old(self)@.parents, old(self)@.parents.len() as int);
            }
            let idx: usize = self.nodes.len();
            let node = Node { uuid: uuid.to_owned(), parent_index: idx, index: idx, size: 1 };
            self.nodes.push(node);
            self.set_count = self.set_count + 1;
            proof {
                let v = old(self)@;
                lemma_append_wf(v, uuid@);
                assert(self@.names =~= v.names.push(uuid@));
                assert(self@.parents =~= v.parents.push(v.parents.len() as int));
                assert(self@.sizes =~= v.sizes.push(1));
                assert(self@ =~= appended(v, uuid@));
                assert forall|i: int|
                    0 <= i < self.nodes@.len() implies (#[trigger] self.nodes@[i].index) as int
                    == i by {
                    if i < v.parents.len() {
                        assert(self.nodes@[i] == old(self).nodes@[i]);
                    }
                }
            }
        }
    }
}

} // verus!
