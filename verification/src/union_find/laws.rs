//! Laws of the store: properties that relate several operations, stated over
//! the model and proved once for every well-formed store and every input.

use crate::union_find::model::{
    inserted, inserted_all, is_root, lemma_append_wf, lemma_merge_wf, lemma_name_map_in_range,
    lemma_root_of_props, lemma_store_new_wf, lemma_unite_wf, merged_roots, name_index, name_root, node_total,
    pair_in_range, root_of, same_set, store_new, united_all, united_names, wf_store, StoreView,
};
use vstd::prelude::*;

verus! {

/// In a merged store, a name that resolved to the losing representative now
/// resolves to the winning one, and every other name resolves as before.
proof fn lemma_name_root_mapped(v: StoreView, ra: int, rb: int, x: Seq<char>)
    requires
        wf_store(v),
        1 <= ra < v.parents.len(),
        1 <= rb < v.parents.len(),
        is_root(v.parents, ra),
        is_root(v.parents, rb),
        ra != rb,
    ensures
        ({
            let lo = if v.sizes[ra] < v.sizes[rb] {
                ra
            } else {
                rb
            };
            let wi = if v.sizes[ra] < v.sizes[rb] {
                rb
            } else {
                ra
            };
            name_root(merged_roots(v, ra, rb), x) == (if name_root(v, x) == lo {
                wi
            } else {
                name_root(v, x)
            })
        }),
{
    lemma_merge_wf(v, ra, rb);
    let w = merged_roots(v, ra, rb);
    assert(w.names == v.names);
    assert(name_index(w) == name_index(v));
    if name_index(v).contains_key(x) {
        let ix = name_index(v)[x];
        lemma_name_map_in_range(v.names, v.names.len() as int, x);
        lemma_root_of_props(v, ix);
        assert(root_of(w.parents, ix) == (if root_of(v.parents, ix) == (if v.sizes[ra]
            < v.sizes[rb] {
            ra
        } else {
            rb
        }) {
            (if v.sizes[ra] < v.sizes[rb] {
                rb
            } else {
                ra
            })
        } else {
            root_of(v.parents, ix)
        }));
    }
}

/// Inserting a sequence of distinct, unregistered names grows the entity
/// count and the disjoint-set counter by exactly the number of names, and
/// registers exactly those names on top of the old index.
pub proof fn lemma_distinct_inserts_count(v: StoreView, names: Seq<Seq<char>>)
    requires
        wf_store(v),
        forall|k: int| 0 <= k < names.len() ==> !name_index(v).contains_key(#[trigger] names[k]),
        forall|j: int, k: int| 0 <= j < k < names.len() ==> names[j] != names[k],
    ensures
        wf_store(inserted_all(v, names)),
        node_total(inserted_all(v, names)) == node_total(v) + names.len(),
        inserted_all(v, names).set_count == v.set_count + names.len(),
        forall|x: Seq<char>| #[trigger]
            name_index(inserted_all(v, names)).contains_key(x) <==> (name_index(v).contains_key(x)
                || names.contains(x)),
    decreases names.len(),
{
    if names.len() == 0 {
        assert(forall|x: Seq<char>| !names.contains(x));
    } else {
        let pre = names.drop_last();
        let last = names.last();
        let w = inserted_all(v, pre);
        lemma_distinct_inserts_count(v, pre);
        assert(!pre.contains(last)) by {
            if pre.contains(last) {
                let j = choose|j: int| 0 <= j < pre.len() && pre[j] == last;
                assert(names[j] == names[names.len() - 1]);
            }
        }
        assert(!name_index(v).contains_key(last)) by {
            assert(names[names.len() - 1] == last);
        }
        assert(!name_index(w).contains_key(last));
        lemma_append_wf(w, last);
        assert forall|x: Seq<char>| #[trigger]
            name_index(inserted_all(v, names)).contains_key(x) <==> (name_index(
            v,
        ).contains_key(x) || names.contains(x)) by {
            assert(names.contains(x) <==> (pre.contains(x) || x == last)) by {
                if names.contains(x) {
                    let j = choose|j: int| 0 <= j < names.len() && names[j] == x;
                    if j < names.len() - 1 {
                        assert(pre[j] == x);
                    }
                }
                if pre.contains(x) {
                    let j = choose|j: int| 0 <= j < pre.len() && pre[j] == x;
                    assert(names[j] == x);
                }
                if x == last {
                    assert(names[names.len() - 1] == x);
                }
            }
        }
    }
}

/// For any sequence of distinct names inserted into a fresh store, the entity
/// count and the disjoint-set counter both equal the number of names.
pub proof fn lemma_fresh_distinct_inserts_count(names: Seq<Seq<char>>)
    requires
        forall|j: int, k: int| 0 <= j < k < names.len() ==> names[j] != names[k],
    ensures
        wf_store(inserted_all(store_new(), names)),
        node_total(inserted_all(store_new(), names)) == names.len(),
        inserted_all(store_new(), names).set_count == names.len(),
{
    lemma_store_new_wf();
    lemma_distinct_inserts_count(store_new(), names);
}

/// Inserting a name twice by the single-name path is the same as inserting it
/// once: the second insertion is absorbed whole.
pub proof fn lemma_insert_absorbed(v: StoreView, name: Seq<char>)
    requires
        wf_store(v),
    ensures
        inserted(inserted(v, name), name) == inserted(v, name),
{
    if !name_index(v).contains_key(name) {
        lemma_append_wf(v, name);
    }
}

/// Connecting the same pair of names twice is the same as connecting it once:
/// the second call is absorbed whole, so the disjoint-set counter falls only
/// on the first.
pub proof fn lemma_connect_absorbed(v: StoreView, a: Seq<char>, b: Seq<char>)
    requires
        wf_store(v),
    ensures
        united_names(united_names(v, a, b), a, b) == united_names(v, a, b),
{
    let ra = name_root(v, a);
    let rb = name_root(v, b);
    if ra != 0 && rb != 0 && ra != rb {
        lemma_name_map_in_range(v.names, v.names.len() as int, a);
        lemma_name_map_in_range(v.names, v.names.len() as int, b);
        lemma_root_of_props(v, name_index(v)[a]);
        lemma_root_of_props(v, name_index(v)[b]);
        lemma_name_root_mapped(v, ra, rb, a);
        lemma_name_root_mapped(v, ra, rb, b);
    }
}

/// The disjoint-set counter falls by exactly one when a connection merges
/// two registered names with distinct representatives, and stays put in
/// every other case.
pub proof fn lemma_connect_counter(v: StoreView, a: Seq<char>, b: Seq<char>)
    ensures
        united_names(v, a, b).set_count == v.set_count - (if name_root(v, a) != 0 && name_root(
            v,
            b,
        ) != 0 && name_root(v, a) != name_root(v, b) {
            1int
        } else {
            0int
        }),
{
}

/// Connecting a name to itself never changes the store, and in particular
/// never changes the disjoint-set counter.
pub proof fn lemma_connect_self(v: StoreView, a: Seq<char>)
    ensures
        united_names(v, a, a) == v,
{
}

/// Bulk connections only merge: however many pairs in range are applied, the
/// store stays well formed and the records, their names and the entity count
/// stay exactly as they were.
pub proof fn lemma_unions_keep_entities(v: StoreView, pairs: Seq<(int, int)>)
    requires
        wf_store(v),
        forall|j: int|
            0 <= j < pairs.len() ==> pair_in_range(#[trigger] pairs[j], v.parents.len() as int),
    ensures
        wf_store(united_all(v, pairs)),
        united_all(v, pairs).names == v.names,
        united_all(v, pairs).parents.len() == v.parents.len(),
        node_total(united_all(v, pairs)) == node_total(v),
    decreases pairs.len(),
{
    if pairs.len() > 0 {
        let pre = pairs.drop_last();
        assert(forall|j: int| 0 <= j < pre.len() ==> pairs[j] == #[trigger] pre[j]);
        lemma_unions_keep_entities(v, pre);
        assert(pairs[pairs.len() - 1] == pairs.last());
        lemma_unite_wf(united_all(v, pre), pairs.last().0 + 1, pairs.last().1 + 1);
    }
}

/// Being in the same set is a symmetric relation.
pub proof fn lemma_same_set_symmetric(v: StoreView, a: Seq<char>, b: Seq<char>)
    ensures
        same_set(v, a, b) == same_set(v, b, a),
{
}

/// Being in the same set is a transitive relation.
pub proof fn lemma_same_set_transitive(v: StoreView, a: Seq<char>, b: Seq<char>, c: Seq<char>)
    requires
        same_set(v, a, b),
        same_set(v, b, c),
    ensures
        same_set(v, a, c),
{
}

/// Idempotence of resolution: what a resolution returns is a representative,
/// and a representative resolves to itself, so with no union in between a
/// repeated resolution returns the identical position.
pub proof fn lemma_resolution_idempotent(v: StoreView, i: int)
    requires
        wf_store(v),
        0 <= i < v.parents.len(),
    ensures
        root_of(v.parents, root_of(v.parents, i)) == root_of(v.parents, i),
{
    lemma_root_of_props(v, i);
}

/// A connection joins the two names' sets: when both names are registered,
/// they share a representative after the call.
pub proof fn lemma_connect_connects(v: StoreView, a: Seq<char>, b: Seq<char>)
    requires
        wf_store(v),
        name_root(v, a) != 0,
        name_root(v, b) != 0,
    ensures
        same_set(united_names(v, a, b), a, b),
{
    let ra = name_root(v, a);
    let rb = name_root(v, b);
    lemma_name_map_in_range(v.names, v.names.len() as int, a);
    lemma_name_map_in_range(v.names, v.names.len() as int, b);
    lemma_root_of_props(v, name_index(v)[a]);
    lemma_root_of_props(v, name_index(v)[b]);
    if ra != rb {
        lemma_name_root_mapped(v, ra, rb, a);
        lemma_name_root_mapped(v, ra, rb, b);
    }
}

/// A connection never separates: names that share a representative still do
/// after any further connection.
pub proof fn lemma_connect_preserves(
    v: StoreView,
    a: Seq<char>,
    b: Seq<char>,
    x: Seq<char>,
    y: Seq<char>,
)
    requires
        wf_store(v),
        same_set(v, x, y),
    ensures
        same_set(united_names(v, a, b), x, y),
{
    let ra = name_root(v, a);
    let rb = name_root(v, b);
    if ra != 0 && rb != 0 && ra != rb {
        lemma_name_map_in_range(v.names, v.names.len() as int, a);
        lemma_name_map_in_range(v.names, v.names.len() as int, b);
        lemma_root_of_props(v, name_index(v)[a]);
        lemma_root_of_props(v, name_index(v)[b]);
        lemma_name_root_mapped(v, ra, rb, x);
        lemma_name_root_mapped(v, ra, rb, y);
    }
}

} // verus!
