//! Mathematical model of the store: parent chains, representative counting,
//! size bookkeeping and the name index, together with the lemmas that the
//! executable operations and the public laws rest on.

use vstd::prelude::*;

verus! {

/// Ghost image of a store. Position 0 is the reserved placeholder record;
/// real entities occupy positions 1 and up, in insertion order.
#[verifier::ext_equal]
pub ghost struct StoreView {
    /// Name of the record at each position.
    pub names: Seq<Seq<char>>,
    /// Parent position of the record at each position; a record is a
    /// representative (root) exactly when it is its own parent.
    pub parents: Seq<int>,
    /// Size recorded at each position; meaningful only at representatives.
    pub sizes: Seq<int>,
    /// The disjoint-set counter.
    pub set_count: int,
}

/// A record is a root when it is its own parent.
pub open spec fn is_root(p: Seq<int>, i: int) -> bool {
    p[i] == i
}

/// Follow parent links from `i` for at most `fuel` steps; stops early at a
/// root. The result is the representative of `i` whenever it is a root.
pub open spec fn root_from(p: Seq<int>, i: int, fuel: nat) -> int
    decreases fuel,
{
    if p[i] == i || fuel == 0 {
        i
    } else {
        root_from(p, p[i], (fuel - 1) as nat)
    }
}

/// The representative that position `i` resolves to. Under `wf_store` every
/// chain reaches its root well within `p.len()` steps.
pub open spec fn root_of(p: Seq<int>, i: int) -> int {
    root_from(p, i, p.len())
}

/// Number of roots among the real positions `1..n`.
pub open spec fn count_roots(p: Seq<int>, n: int) -> int
    decreases n,
{
    if n <= 1 {
        0
    } else {
        count_roots(p, n - 1) + (if is_root(p, n - 1) {
            1int
        } else {
            0int
        })
    }
}

/// Number of real positions in `1..n` whose representative is `r`.
pub open spec fn count_set(p: Seq<int>, r: int, n: int) -> int
    decreases n,
{
    if n <= 1 {
        0
    } else {
        count_set(p, r, n - 1) + (if root_of(p, n - 1) == r {
            1int
        } else {
            0int
        })
    }
}

/// Total of the sizes recorded at the roots among the real positions `1..n`.
pub open spec fn root_size_sum(p: Seq<int>, s: Seq<int>, n: int) -> int
    decreases n,
{
    if n <= 1 {
        0
    } else {
        root_size_sum(p, s, n - 1) + (if is_root(p, n - 1) {
            s[n - 1]
        } else {
            0int
        })
    }
}

/// The name index over the real positions `1..n`: each position is entered in
/// order, so a repeated name is shadowed by its latest position.
pub open spec fn name_map(names: Seq<Seq<char>>, n: int) -> Map<Seq<char>, int>
    decreases n,
{
    if n <= 1 {
        Map::empty()
    } else {
        name_map(names, n - 1).insert(names[n - 1], n - 1)
    }
}

/// Every parent link lands inside the store.
pub open spec fn parents_in_range(p: Seq<int>) -> bool {
    forall|i: int| 0 <= i < p.len() ==> 0 <= #[trigger] p[i] < p.len()
}

/// No real record ever defers to the placeholder.
pub open spec fn real_parents(p: Seq<int>) -> bool {
    forall|i: int| 1 <= i < p.len() ==> #[trigger] p[i] >= 1
}

/// Every chain reaches a root within `fuel` steps.
pub open spec fn resolves_within(p: Seq<int>, fuel: nat) -> bool {
    forall|i: int| 0 <= i < p.len() ==> is_root(p, #[trigger] root_from(p, i, fuel))
}

/// Bound on the length of any parent chain: each merge re-parents one root,
/// so chains never grow past the number of merges performed so far, which is
/// the number of real records minus the number of roots left.
pub open spec fn chain_fuel(v: StoreView) -> nat {
    (v.parents.len() - 1 - count_roots(v.parents, v.parents.len() as int)) as nat
}

/// Well-formedness of a store image.
pub open spec fn wf_store(v: StoreView) -> bool {
    &&& v.names.len() == v.parents.len()
    &&& v.sizes.len() == v.parents.len()
    &&& v.parents.len() >= 1
    &&& v.parents[0] == 0
    &&& v.sizes[0] == 0
    &&& parents_in_range(v.parents)
    &&& real_parents(v.parents)
    &&& resolves_within(v.parents, chain_fuel(v))
    &&& forall|i: int| 0 <= i < v.sizes.len() ==> 0 <= #[trigger] v.sizes[i]
    &&& forall|i: int|
        1 <= i < v.parents.len() && is_root(v.parents, i) ==> #[trigger] v.sizes[i] >= 1
    &&& root_size_sum(v.parents, v.sizes, v.parents.len() as int) == v.parents.len() - 1
    &&& v.set_count == count_roots(v.parents, v.parents.len() as int)
    &&& forall|r: int|
        1 <= r < v.parents.len() && is_root(v.parents, r) ==> v.sizes[r] == #[trigger] count_set(
            v.parents,
            r,
            v.parents.len() as int,
        )
}

/// Number of real entities in the store.
pub open spec fn node_total(v: StoreView) -> int {
    v.parents.len() - 1
}

/// The name index of a store.
pub open spec fn name_index(v: StoreView) -> Map<Seq<char>, int> {
    name_map(v.names, v.names.len() as int)
}

/// Representative of a name: the placeholder position 0 when the name is not
/// registered, the root of its position otherwise.
pub open spec fn name_root(v: StoreView, name: Seq<char>) -> int {
    if name_index(v).contains_key(name) {
        root_of(v.parents, name_index(v)[name])
    } else {
        0
    }
}

/// Two names are in the same set when both resolve to one real representative.
pub open spec fn same_set(v: StoreView, a: Seq<char>, b: Seq<char>) -> bool {
    name_root(v, a) != 0 && name_root(v, a) == name_root(v, b)
}

/// The image of a freshly created store: only the placeholder record.
pub open spec fn store_new() -> StoreView {
    StoreView { names: seq!["root"@], parents: seq![0], sizes: seq![0], set_count: 0 }
}

/// Unconditional append of one fresh self-parented record.
pub open spec fn appended(v: StoreView, name: Seq<char>) -> StoreView {
    StoreView {
        names: v.names.push(name),
        parents: v.parents.push(v.parents.len() as int),
        sizes: v.sizes.push(1),
        set_count: v.set_count + 1,
    }
}

/// Effect of a single-name insertion: a no-op on a registered name, an
/// `appended` record otherwise.
pub open spec fn inserted(v: StoreView, name: Seq<char>) -> StoreView {
    if name_index(v).contains_key(name) {
        v
    } else {
        appended(v, name)
    }
}

/// Effect of a sequence of single-name insertions, applied in order.
pub open spec fn inserted_all(v: StoreView, names: Seq<Seq<char>>) -> StoreView
    decreases names.len(),
{
    if names.len() == 0 {
        v
    } else {
        inserted(inserted_all(v, names.drop_last()), names.last())
    }
}

/// Effect of a batch insertion: every name is appended, duplicates included.
pub open spec fn appended_all(v: StoreView, names: Seq<Seq<char>>) -> StoreView
    decreases names.len(),
{
    if names.len() == 0 {
        v
    } else {
        appended(appended_all(v, names.drop_last()), names.last())
    }
}

/// Merge of two distinct representatives by the union-by-size rule: the
/// strictly smaller root is re-parented under the other; on a tie the second
/// goes under the first.
pub open spec fn merged_roots(v: StoreView, ra: int, rb: int) -> StoreView {
    if v.sizes[ra] < v.sizes[rb] {
        StoreView {
            names: v.names,
            parents: v.parents.update(ra, rb),
            sizes: v.sizes.update(rb, v.sizes[ra] + v.sizes[rb]),
            set_count: v.set_count - 1,
        }
    } else {
        StoreView {
            names: v.names,
            parents: v.parents.update(rb, ra),
            sizes: v.sizes.update(ra, v.sizes[ra] + v.sizes[rb]),
            set_count: v.set_count - 1,
        }
    }
}

/// Union of the sets holding positions `ia` and `ib`: a no-op when they share
/// a representative, a `merged_roots` otherwise.
pub open spec fn united(v: StoreView, ia: int, ib: int) -> StoreView {
    let ra = root_of(v.parents, ia);
    let rb = root_of(v.parents, ib);
    if ra == rb {
        v
    } else {
        merged_roots(v, ra, rb)
    }
}

/// Effect of the bulk loader on zero-based pairs, applied strictly in order;
/// each index is shifted by one to skip the placeholder.
pub open spec fn united_all(v: StoreView, pairs: Seq<(int, int)>) -> StoreView
    decreases pairs.len(),
{
    if pairs.len() == 0 {
        v
    } else {
        united(united_all(v, pairs.drop_last()), pairs.last().0 + 1, pairs.last().1 + 1)
    }
}

/// Both zero-based positions of a pair land inside a store of `n` records
/// once shifted past the placeholder.
pub open spec fn pair_in_range(q: (int, int), n: int) -> bool {
    0 <= q.0 && q.0 + 1 < n && 0 <= q.1 && q.1 + 1 < n
}

/// Position of the first pair that does not land inside a store of `n`
/// records, or the number of pairs when all of them do.
pub open spec fn first_out_of_range(pairs: Seq<(int, int)>, n: int) -> int
    decreases pairs.len(),
{
    if pairs.len() == 0 {
        0
    } else if !pair_in_range(pairs[0], n) {
        0
    } else {
        1 + first_out_of_range(pairs.drop_first(), n)
    }
}

/// Union by names: a no-op unless both names are registered and their
/// representatives differ.
pub open spec fn united_names(v: StoreView, a: Seq<char>, b: Seq<char>) -> StoreView {
    let ra = name_root(v, a);
    let rb = name_root(v, b);
    if ra == 0 || rb == 0 || ra == rb {
        v
    } else {
        merged_roots(v, ra, rb)
    }
}

/// A walk that starts inside the store stays inside it.
proof fn lemma_root_from_in_range(p: Seq<int>, i: int, fuel: nat)
    requires
        parents_in_range(p),
        0 <= i < p.len(),
    ensures
        0 <= root_from(p, i, fuel) < p.len(),
    decreases fuel,
{
    if p[i] == i || fuel == 0 {
    } else {
        lemma_root_from_in_range(p, p[i], (fuel - 1) as nat);
    }
}

/// A walk that starts at a real record never reaches the placeholder.
proof fn lemma_root_from_real(p: Seq<int>, i: int, fuel: nat)
    requires
        parents_in_range(p),
        real_parents(p),
        1 <= i < p.len(),
    ensures
        1 <= root_from(p, i, fuel) < p.len(),
    decreases fuel,
{
    if p[i] == i || fuel == 0 {
    } else {
        lemma_root_from_real(p, p[i], (fuel - 1) as nat);
    }
}

/// Once a walk has reached a root, more fuel does not change the outcome.
proof fn lemma_root_from_mono(p: Seq<int>, i: int, f1: nat, f2: nat)
    requires
        f1 <= f2,
        is_root(p, root_from(p, i, f1)),
    ensures
        root_from(p, i, f2) == root_from(p, i, f1),
    decreases f1,
{
    if p[i] == i {
    } else if f1 == 0 {
        // then root_from(p, i, f1) == i, which is not a root: vacuous
    } else {
        lemma_root_from_mono(p, p[i], (f1 - 1) as nat, (f2 - 1) as nat);
    }
}

/// Appending a record does not disturb walks that start inside the old store.
proof fn lemma_root_from_push(p: Seq<int>, x: int, i: int, fuel: nat)
    requires
        parents_in_range(p),
        0 <= i < p.len(),
    ensures
        root_from(p.push(x), i, fuel) == root_from(p, i, fuel),
    decreases fuel,
{
    assert(p.push(x)[i] == p[i]);
    if p[i] == i || fuel == 0 {
    } else {
        lemma_root_from_push(p, x, p[i], (fuel - 1) as nat);
    }
}

/// Re-parenting root `ra` under root `rb` redirects exactly the chains that
/// ended at `ra`, at the cost of one extra step.
proof fn lemma_root_from_update(p: Seq<int>, ra: int, rb: int, i: int, fuel: nat)
    requires
        parents_in_range(p),
        0 <= ra < p.len(),
        0 <= rb < p.len(),
        is_root(p, ra),
        is_root(p, rb),
        ra != rb,
        0 <= i < p.len(),
        is_root(p, root_from(p, i, fuel)),
    ensures
        root_from(p.update(ra, rb), i, (fuel + 1) as nat) == (if root_from(p, i, fuel) == ra {
            rb
        } else {
            root_from(p, i, fuel)
        }),
        is_root(p.update(ra, rb), root_from(p.update(ra, rb), i, (fuel + 1) as nat)),
    decreases fuel,
{
    let p2 = p.update(ra, rb);
    if p[i] == i {
        if i == ra {
            assert(p2[ra] == rb);
            assert(p2[rb] == rb);
            assert(root_from(p2, rb, fuel) == rb);
            assert(root_from(p2, i, (fuel + 1) as nat) == rb);
        } else {
            assert(p2[i] == i);
            assert(root_from(p2, i, (fuel + 1) as nat) == i);
        }
    } else {
        assert(fuel > 0);
        assert(i != ra);
        assert(p2[i] == p[i]);
        lemma_root_from_update(p, ra, rb, p[i], (fuel - 1) as nat);
        assert(((fuel - 1) as nat + 1) as nat == fuel);
        assert(root_from(p, i, fuel) == root_from(p, p[i], (fuel - 1) as nat));
        assert(root_from(p2, i, (fuel + 1) as nat) == root_from(p2, p[i], fuel));
    }
}

/// Appending a record keeps the root count over the old range.
proof fn lemma_count_roots_push(p: Seq<int>, x: int, n: int)
    requires
        0 <= n <= p.len(),
    ensures
        count_roots(p.push(x), n) == count_roots(p, n),
    decreases n,
{
    if n <= 1 {
    } else {
        assert(p.push(x)[n - 1] == p[n - 1]);
        lemma_count_roots_push(p, x, n - 1);
    }
}

/// Re-parenting one real root away from itself lowers the root count by one.
proof fn lemma_count_roots_update(p: Seq<int>, r: int, x: int, n: int)
    requires
        0 <= r < p.len(),
        is_root(p, r),
        x != r,
        0 <= n <= p.len(),
    ensures
        count_roots(p.update(r, x), n) == count_roots(p, n) - (if 1 <= r < n {
            1int
        } else {
            0int
        }),
    decreases n,
{
    if n <= 1 {
    } else {
        lemma_count_roots_update(p, r, x, n - 1);
        if n - 1 == r {
            assert(p.update(r, x)[n - 1] == x);
        } else {
            assert(p.update(r, x)[n - 1] == p[n - 1]);
        }
    }
}

/// There are at most `n - 1` roots among positions `1..n`, and never fewer
/// than none.
pub proof fn lemma_count_roots_bounds(p: Seq<int>, n: int)
    requires
        n >= 1,
    ensures
        0 <= count_roots(p, n) <= n - 1,
    decreases n,
{
    if n <= 1 {
    } else {
        lemma_count_roots_bounds(p, n - 1);
    }
}

/// A real root in range witnesses a positive root count.
pub proof fn lemma_count_roots_ge_one(p: Seq<int>, n: int, r: int)
    requires
        1 <= r < n,
        is_root(p, r),
    ensures
        count_roots(p, n) >= 1,
    decreases n,
{
    if n - 1 == r {
        lemma_count_roots_bounds(p, n - 1);
    } else {
        lemma_count_roots_ge_one(p, n - 1, r);
    }
}

/// Appending records disturbs neither side of the size total.
proof fn lemma_rss_push(p: Seq<int>, s: Seq<int>, x: int, y: int, n: int)
    requires
        0 <= n <= p.len(),
        n <= s.len(),
    ensures
        root_size_sum(p.push(x), s.push(y), n) == root_size_sum(p, s, n),
    decreases n,
{
    if n <= 1 {
    } else {
        assert(p.push(x)[n - 1] == p[n - 1]);
        assert(s.push(y)[n - 1] == s[n - 1]);
        lemma_rss_push(p, s, x, y, n - 1);
    }
}

/// Re-parenting a root away from itself removes exactly its size from the
/// total.
proof fn lemma_rss_update_parent(p: Seq<int>, s: Seq<int>, r: int, x: int, n: int)
    requires
        0 <= r < p.len(),
        is_root(p, r),
        x != r,
        0 <= n <= p.len(),
        n <= s.len(),
    ensures
        root_size_sum(p.update(r, x), s, n) == root_size_sum(p, s, n) - (if 1 <= r < n {
            s[r]
        } else {
            0int
        }),
    decreases n,
{
    if n <= 1 {
    } else {
        lemma_rss_update_parent(p, s, r, x, n - 1);
        if n - 1 == r {
            assert(p.update(r, x)[n - 1] == x);
        } else {
            assert(p.update(r, x)[n - 1] == p[n - 1]);
        }
    }
}

/// Changing the size stored at one position moves the total by the difference
/// exactly when that position is a root in range.
proof fn lemma_rss_update_size(p: Seq<int>, s: Seq<int>, r: int, val: int, n: int)
    requires
        0 <= r < s.len(),
        0 <= n <= p.len(),
        n <= s.len(),
    ensures
        root_size_sum(p, s.update(r, val), n) == root_size_sum(p, s, n) + (if 1 <= r < n
            && is_root(p, r) {
            val - s[r]
        } else {
            0int
        }),
    decreases n,
{
    if n <= 1 {
    } else {
        lemma_rss_update_size(p, s, r, val, n - 1);
        if n - 1 == r {
            assert(s.update(r, val)[n - 1] == val);
        } else {
            assert(s.update(r, val)[n - 1] == s[n - 1]);
        }
    }
}

/// With nonnegative sizes the total is nonnegative.
proof fn lemma_rss_nonneg(p: Seq<int>, s: Seq<int>, n: int)
    requires
        0 <= n <= p.len(),
        n <= s.len(),
        forall|i: int| 0 <= i < s.len() ==> 0 <= #[trigger] s[i],
    ensures
        root_size_sum(p, s, n) >= 0,
    decreases n,
{
    if n <= 1 {
    } else {
        lemma_rss_nonneg(p, s, n - 1);
    }
}

/// With nonnegative sizes the total covers any single root in range.
proof fn lemma_rss_member(p: Seq<int>, s: Seq<int>, r: int, n: int)
    requires
        1 <= r < n <= p.len(),
        n <= s.len(),
        is_root(p, r),
        forall|i: int| 0 <= i < s.len() ==> 0 <= #[trigger] s[i],
    ensures
        root_size_sum(p, s, n) >= s[r],
    decreases n,
{
    if n - 1 == r {
        lemma_rss_nonneg(p, s, n - 1);
    } else {
        lemma_rss_member(p, s, r, n - 1);
    }
}

/// With nonnegative sizes the total covers any two distinct roots in range.
proof fn lemma_rss_pair(p: Seq<int>, s: Seq<int>, ra: int, rb: int, n: int)
    requires
        1 <= ra < n <= p.len(),
        1 <= rb < n,
        n <= s.len(),
        ra != rb,
        is_root(p, ra),
        is_root(p, rb),
        forall|i: int| 0 <= i < s.len() ==> 0 <= #[trigger] s[i],
    ensures
        root_size_sum(p, s, n) >= s[ra] + s[rb],
    decreases n,
{
    if n - 1 == ra {
        lemma_rss_member(p, s, rb, n - 1);
    } else if n - 1 == rb {
        lemma_rss_member(p, s, ra, n - 1);
    } else {
        lemma_rss_pair(p, s, ra, rb, n - 1);
    }
}

/// A registered name points at a real position carrying that name.
pub proof fn lemma_name_map_in_range(names: Seq<Seq<char>>, n: int, name: Seq<char>)
    requires
        n <= names.len(),
        name_map(names, n).contains_key(name),
    ensures
        1 <= name_map(names, n)[name] < n,
        names[name_map(names, n)[name]] == name,
    decreases n,
{
    if n <= 1 {
    } else {
        if name == names[n - 1] {
        } else {
            lemma_name_map_in_range(names, n - 1, name);
        }
    }
}

/// A name carried by no real position is absent from the index.
pub proof fn lemma_name_map_absent(names: Seq<Seq<char>>, n: int, name: Seq<char>)
    requires
        forall|j: int| 1 <= j < n ==> #[trigger] names[j] != name,
    ensures
        !name_map(names, n).contains_key(name),
    decreases n,
{
    if n <= 1 {
    } else {
        lemma_name_map_absent(names, n - 1, name);
    }
}

/// The index resolves a name to its latest position.
pub proof fn lemma_name_map_found(names: Seq<Seq<char>>, n: int, name: Seq<char>, k: int)
    requires
        1 <= k < n,
        names[k] == name,
        forall|j: int| k < j < n ==> #[trigger] names[j] != name,
    ensures
        name_map(names, n).contains_key(name),
        name_map(names, n)[name] == k,
    decreases n,
{
    if n - 1 == k {
    } else {
        lemma_name_map_found(names, n - 1, name, k);
    }
}

/// A pair out of range preceded only by pairs in range is the first one out.
pub proof fn lemma_first_out_of_range_at(pairs: Seq<(int, int)>, n: int, k: int)
    requires
        0 <= k < pairs.len(),
        !pair_in_range(pairs[k], n),
        forall|j: int| 0 <= j < k ==> pair_in_range(#[trigger] pairs[j], n),
    ensures
        first_out_of_range(pairs, n) == k,
    decreases pairs.len(),
{
    if pair_in_range(pairs[0], n) {
        lemma_first_out_of_range_at(pairs.drop_first(), n, k - 1);
    }
}

/// With every pair in range, the first excess position is past the end.
pub proof fn lemma_first_out_of_range_none(pairs: Seq<(int, int)>, n: int)
    requires
        forall|j: int| 0 <= j < pairs.len() ==> pair_in_range(#[trigger] pairs[j], n),
    ensures
        first_out_of_range(pairs, n) == pairs.len(),
    decreases pairs.len(),
{
    if pairs.len() == 0 {
    } else {
        lemma_first_out_of_range_none(pairs.drop_first(), n);
    }
}

/// Stores that resolve every real position alike hold sets of one size.
proof fn lemma_count_set_same(pa: Seq<int>, pb: Seq<int>, r: int, n: int)
    requires
        forall|i: int| 1 <= i < n ==> #[trigger] root_of(pb, i) == root_of(pa, i),
    ensures
        count_set(pb, r, n) == count_set(pa, r, n),
    decreases n,
{
    if n <= 1 {
    } else {
        lemma_count_set_same(pa, pb, r, n - 1);
    }
}

/// A representative that no real position resolves to heads an empty set.
proof fn lemma_count_set_absent(p: Seq<int>, r: int, n: int)
    requires
        forall|i: int| 1 <= i < n ==> #[trigger] root_of(p, i) != r,
    ensures
        count_set(p, r, n) == 0,
    decreases n,
{
    if n <= 1 {
    } else {
        lemma_count_set_absent(p, r, n - 1);
    }
}

/// When every resolution to `lo` is redirected to `wi` and all others stand,
/// the winner's set absorbs the loser's, the loser's set empties, and every
/// other set keeps its size.
proof fn lemma_count_set_after_map(pa: Seq<int>, pb: Seq<int>, lo: int, wi: int, r: int, n: int)
    requires
        lo != wi,
        forall|i: int| 1 <= i < n ==> #[trigger] root_of(pb, i) == (if root_of(pa, i) == lo {
            wi
        } else {
            root_of(pa, i)
        }),
    ensures
        count_set(pb, r, n) == (if r == wi {
            count_set(pa, wi, n) + count_set(pa, lo, n)
        } else if r == lo {
            0int
        } else {
            count_set(pa, r, n)
        }),
    decreases n,
{
    if n <= 1 {
    } else {
        lemma_count_set_after_map(pa, pb, lo, wi, r, n - 1);
    }
}

/// A freshly created store is well formed and registers no name.
pub proof fn lemma_store_new_wf()
    ensures
        wf_store(store_new()),
        name_index(store_new()) == Map::<Seq<char>, int>::empty(),
        store_new().parents.len() == 1,
{
    let v = store_new();
    assert(v.parents[0] == 0);
    assert(root_from(v.parents, 0, chain_fuel(v)) == 0);
}

/// Resolution under a well-formed store: the result is a root, real records
/// resolve to real representatives, the placeholder resolves to itself, and
/// the bounded walk already agrees with full resolution.
pub proof fn lemma_root_of_props(v: StoreView, i: int)
    requires
        wf_store(v),
        0 <= i < v.parents.len(),
    ensures
        is_root(v.parents, root_of(v.parents, i)),
        0 <= root_of(v.parents, i) < v.parents.len(),
        i >= 1 ==> 1 <= root_of(v.parents, i),
        i == 0 ==> root_of(v.parents, i) == 0,
        root_from(v.parents, i, chain_fuel(v)) == root_of(v.parents, i),
{
    let p = v.parents;
    let n = p.len() as int;
    let cf = chain_fuel(v);
    lemma_count_roots_bounds(p, n);
    assert(is_root(p, root_from(p, i, cf)));
    lemma_root_from_mono(p, i, cf, p.len());
    lemma_root_from_in_range(p, i, p.len());
    if i >= 1 {
        lemma_root_from_real(p, i, p.len());
    }
}

/// Appending one fresh self-parented record preserves well-formedness, adds
/// the record's name to the index, and leaves every old resolution as it was.
pub proof fn lemma_append_wf(v: StoreView, name: Seq<char>)
    requires
        wf_store(v),
    ensures
        wf_store(appended(v, name)),
        name_index(appended(v, name)) == name_index(v).insert(name, v.parents.len() as int),
        forall|i: int|
            0 <= i < v.parents.len() ==> root_of(appended(v, name).parents, i) == root_of(
                v.parents,
                i,
            ),
        root_of(appended(v, name).parents, v.parents.len() as int) == v.parents.len() as int,
{
    let n = v.parents.len() as int;
    let p = v.parents;
    let s = v.sizes;
    let w = appended(v, name);
    let p2 = p.push(n);
    let cf = chain_fuel(v);
    assert(w.parents == p2);
    assert(p2[n] == n);
    lemma_count_roots_bounds(p, n);
    lemma_count_roots_push(p, n, n);
    assert(count_roots(p2, n + 1) == count_roots(p, n) + 1);
    assert(chain_fuel(w) == cf);
    assert(parents_in_range(p2)) by {
        assert forall|i: int| 0 <= i < p2.len() implies 0 <= #[trigger] p2[i] < p2.len() by {
            if i < n {
                assert(p2[i] == p[i]);
            }
        }
    }
    assert forall|i: int| 0 <= i < p2.len() implies is_root(p2, #[trigger] root_from(p2, i, cf))
        && (i < n ==> root_of(p2, i) == root_of(p, i)) by {
        if i < n {
            assert(is_root(p, root_from(p, i, cf)));
            lemma_root_from_in_range(p, i, cf);
            lemma_root_from_push(p, n, i, cf);
            assert(p2[root_from(p, i, cf)] == p[root_from(p, i, cf)]);
            lemma_root_from_mono(p, i, cf, p.len());
            lemma_root_from_push(p, n, i, p2.len());
            lemma_root_from_mono(p, i, cf, p2.len());
        } else {
            assert(root_from(p2, i, cf) == i);
        }
    }
    assert forall|i: int| 0 <= i < n implies #[trigger] root_of(p2, i) == root_of(p, i) by {
        assert(is_root(p, root_from(p, i, cf)));
        lemma_root_from_push(p, n, i, p2.len());
        lemma_root_from_mono(p, i, cf, p.len());
        lemma_root_from_mono(p, i, cf, p2.len());
    }
    assert(root_from(p2, n, p2.len()) == n);
    assert forall|r: int| 1 <= r < p2.len() && is_root(p2, r) implies w.sizes[r]
        == #[trigger] count_set(p2, r, p2.len() as int) by {
        assert(root_of(p2, n) == n);
        if r < n {
            assert(p2[r] == p[r]);
            lemma_count_set_same(p, p2, r, n);
            assert(v.sizes[r] == count_set(p, r, n));
            assert(count_set(p2, r, n + 1) == count_set(p2, r, n));
            assert(w.sizes[r] == v.sizes[r]);
        } else {
            assert forall|i: int| 1 <= i < n implies #[trigger] root_of(p2, i) != r by {
                lemma_root_of_props(v, i);
            }
            lemma_count_set_absent(p2, r, n);
            assert(count_set(p2, r, n + 1) == count_set(p2, r, n) + 1);
            assert(w.sizes[n] == 1);
        }
    }
    assert(root_size_sum(p2, w.sizes, n + 1) == n) by {
        lemma_rss_push(p, s, n, 1, n);
        assert(w.sizes[n] == 1);
        assert(root_size_sum(p2, w.sizes, n + 1) == root_size_sum(p2, w.sizes, n) + 1);
    }
    assert forall|i: int| 1 <= i < p2.len() && is_root(p2, i) implies #[trigger] w.sizes[i]
        >= 1 by {
        if i < n {
            assert(p2[i] == p[i]);
            assert(w.sizes[i] == s[i]);
            assert(v.sizes[i] >= 1);
        }
    }
    assert(wf_store(w));
    assert(name_index(w) == name_index(v).insert(name, n)) by {
        assert(w.names.len() == n + 1);
        assert(w.names[n] == name);
        lemma_name_map_prefix(w.names, v.names, n);
        assert(name_map(w.names, n + 1) == name_map(w.names, n).insert(name, n));
    }
}

/// Merging two distinct real representatives preserves well-formedness, drops
/// the counter by one, and redirects exactly the records of the losing set to
/// the winning representative.
pub proof fn lemma_merge_wf(v: StoreView, ra: int, rb: int)
    requires
        wf_store(v),
        1 <= ra < v.parents.len(),
        1 <= rb < v.parents.len(),
        is_root(v.parents, ra),
        is_root(v.parents, rb),
        ra != rb,
    ensures
        wf_store(merged_roots(v, ra, rb)),
        merged_roots(v, ra, rb).names == v.names,
        merged_roots(v, ra, rb).parents.len() == v.parents.len(),
        merged_roots(v, ra, rb).set_count == v.set_count - 1,
        v.sizes[ra] + v.sizes[rb] <= v.parents.len() - 1,
        forall|i: int|
            0 <= i < v.parents.len() ==> root_of(merged_roots(v, ra, rb).parents, i) == ({
                let lo = if v.sizes[ra] < v.sizes[rb] {
                    ra
                } else {
                    rb
                };
                let wi = if v.sizes[ra] < v.sizes[rb] {
                    rb
                } else {
                    ra
                };
                if root_of(v.parents, i) == lo {
                    wi
                } else {
                    root_of(v.parents, i)
                }
            }),
{
    let n = v.parents.len() as int;
    let p = v.parents;
    let s = v.sizes;
    let lo = if s[ra] < s[rb] {
        ra
    } else {
        rb
    };
    let wi = if s[ra] < s[rb] {
        rb
    } else {
        ra
    };
    let w = merged_roots(v, ra, rb);
    let p2 = p.update(lo, wi);
    let s2 = s.update(wi, s[ra] + s[rb]);
    assert(w.parents == p2);
    assert(w.sizes == s2);
    let cf = chain_fuel(v);
    lemma_count_roots_bounds(p, n);
    lemma_count_roots_ge_one(p, n, ra);
    lemma_count_roots_update(p, lo, wi, n);
    assert(count_roots(p2, n) == count_roots(p, n) - 1);
    assert(chain_fuel(w) == (cf + 1) as nat);
    assert(parents_in_range(p2)) by {
        assert forall|i: int| 0 <= i < p2.len() implies 0 <= #[trigger] p2[i] < p2.len() by {
            if i != lo {
                assert(p2[i] == p[i]);
            }
        }
    }
    assert forall|i: int| 0 <= i < p2.len() implies is_root(
        p2,
        #[trigger] root_from(p2, i, (cf + 1) as nat),
    ) && root_of(p2, i) == (if root_of(p, i) == lo {
        wi
    } else {
        root_of(p, i)
    }) by {
        assert(is_root(p, root_from(p, i, cf)));
        lemma_root_from_update(p, lo, wi, i, cf);
        lemma_root_from_mono(p, i, cf, p.len());
        lemma_root_from_mono(p2, i, (cf + 1) as nat, p2.len());
    }
    assert forall|i: int| 0 <= i < n implies #[trigger] root_of(p2, i) == (if root_of(p, i) == lo {
        wi
    } else {
        root_of(p, i)
    }) by {
        assert(is_root(p, root_from(p, i, cf)));
        lemma_root_from_update(p, lo, wi, i, cf);
        lemma_root_from_mono(p, i, cf, p.len());
        lemma_root_from_mono(p2, i, (cf + 1) as nat, p2.len());
    }
    assert forall|r: int| 1 <= r < p2.len() && is_root(p2, r) implies s2[r]
        == #[trigger] count_set(p2, r, p2.len() as int) by {
        lemma_count_set_after_map(p, p2, lo, wi, r, n);
        if r == wi {
            assert(v.sizes[wi] == count_set(p, wi, n));
            assert(v.sizes[lo] == count_set(p, lo, n));
        } else {
            assert(p2[lo] == wi);
            assert(r != lo);
            assert(p2[r] == p[r]);
            assert(v.sizes[r] == count_set(p, r, n));
            assert(s2[r] == s[r]);
        }
    }
    assert(root_size_sum(p2, s2, n) == n - 1) by {
        assert(p2[wi] == p[wi]);
        lemma_rss_update_size(p2, s, wi, s[ra] + s[rb], n);
        lemma_rss_update_parent(p, s, lo, wi, n);
    }
    lemma_rss_pair(p, s, ra, rb, n);
    assert forall|i: int| 0 <= i < s2.len() implies 0 <= #[trigger] s2[i] by {
        if i != wi {
            assert(s2[i] == s[i]);
        }
    }
    assert forall|i: int| 1 <= i < p2.len() && is_root(p2, i) implies #[trigger] s2[i] >= 1 by {
        if i == wi {
            assert(v.sizes[ra] >= 1);
            assert(v.sizes[rb] >= 1);
        } else {
            assert(p2[i] == p[i]);
            assert(s2[i] == s[i]);
            if i == lo {
                assert(p2[lo] == wi);
            } else {
                assert(v.sizes[i] >= 1 || !is_root(p, i));
            }
        }
    }
    assert(p2[0] == 0);
    assert(s2[0] == 0);
    assert(wf_store(w));
}

/// Union of two real positions preserves well-formedness and touches neither
/// the records nor their names.
pub proof fn lemma_unite_wf(v: StoreView, ia: int, ib: int)
    requires
        wf_store(v),
        1 <= ia < v.parents.len(),
        1 <= ib < v.parents.len(),
    ensures
        wf_store(united(v, ia, ib)),
        united(v, ia, ib).names == v.names,
        united(v, ia, ib).parents.len() == v.parents.len(),
{
    lemma_root_of_props(v, ia);
    lemma_root_of_props(v, ib);
    let ra = root_of(v.parents, ia);
    let rb = root_of(v.parents, ib);
    if ra != rb {
        lemma_merge_wf(v, ra, rb);
    }
}

/// The index over `1..n` reads only those positions.
proof fn lemma_name_map_prefix(a: Seq<Seq<char>>, b: Seq<Seq<char>>, n: int)
    requires
        forall|j: int| 1 <= j < n ==> #[trigger] a[j] == b[j],
    ensures
        name_map(a, n) == name_map(b, n),
    decreases n,
{
    if n <= 1 {
    } else {
        lemma_name_map_prefix(a, b, n - 1);
    }
}

} // verus!
