//! Layered Merkle trees: construction with a duplicating split, authentication paths,
//! root recomputation and single-leaf updates.
//!
//! A tree is a `Vec` of layers: layer `0` holds the leaves and the last layer holds the
//! root alone. Field elements are modelled by their encodings (`Seq<u8>`), so a layer is
//! a `Seq<Seq<u8>>` and a tree a `Seq<Seq<Seq<u8>>>`.

use crate::field::{hash_pair, poseidon_le, Felt};
use vstd::prelude::*;

verus! {

/// `2` raised to the power `k`.
pub open spec fn pow2(k: nat) -> nat
    decreases k,
{
    if k == 0 {
        1
    } else {
        2 * pow2((k - 1) as nat)
    }
}

/// The encodings of the elements of a layer.
pub open spec fn layer_view(l: Seq<Felt>) -> Seq<Seq<u8>> {
    l.map_values(|x: Felt| x@)
}

/// The model of a tree held as a `Vec` of layers.
pub open spec fn tree_view(t: Seq<Vec<Felt>>) -> Seq<Seq<Seq<u8>>> {
    Seq::new(t.len(), |d: int| layer_view(t[d]@))
}

/// The tree built over the leaves `s` (non-empty). One leaf is its own root. Otherwise
/// the leaves are split at `mid = ceil(n / 2)`: the left half is `s[0..mid)`, the right
/// half is `s[mid..n)` for even `n` and `s[mid - 1..n)` for odd `n`, so that the
/// boundary leaf stands in both. Both halves hold `mid` leaves, so their trees have the
/// same depth and each layer is the left layer followed by the right one; no layer of
/// either side is left out. A last layer holds the hash of the first and the last
/// element of the deepest merged layer.
pub open spec fn merkle_tree(s: Seq<Seq<u8>>) -> Seq<Seq<Seq<u8>>>
    decreases s.len(),
{
    if s.len() <= 1 {
        seq![s]
    } else {
        let mid = (s.len() + 1) as int / 2;
        let left = merkle_tree(s.take(mid));
        let right = merkle_tree(
            if s.len() % 2 == 0 {
                s.skip(mid)
            } else {
                s.skip(mid - 1)
            },
        );
        let merged = Seq::new(left.len(), |d: int| left[d] + right[d]);
        merged.push(seq![poseidon_le(merged.last().first(), merged.last().last())])
    }
}

/// The number of layers above the leaves in the tree built over `n` leaves.
pub open spec fn tree_height(n: nat) -> nat
    decreases n,
{
    if n <= 1 {
        0
    } else {
        1 + tree_height(((n + 1) / 2) as nat)
    }
}

/// Element `j` of layer `k + 1` is the hash of elements `2j` and `2j + 1` of layer `k`.
pub open spec fn hashes_below(t: Seq<Seq<Seq<u8>>>, k: int, j: int) -> bool {
    t[k + 1][j] == poseidon_le(t[k][2 * j], t[k][2 * j + 1])
}

/// A perfect binary hash tree: layer `k` holds `2^(h - k)` elements, where `h + 1` is the
/// number of layers, and each element above the leaves is the hash of its two children.
pub open spec fn is_perfect_tree(t: Seq<Seq<Seq<u8>>>) -> bool {
    &&& t.len() >= 1
    &&& forall|k: int| 0 <= k < t.len() ==> #[trigger] t[k].len() == pow2((t.len() - 1 - k) as nat)
    &&& forall|k: int, j: int|
        0 <= k < t.len() - 1 && 0 <= j < t[k + 1].len() ==> #[trigger] hashes_below(t, k, j)
}

/// The tree built over `n` leaves is perfect, with `tree_height(n) + 1` layers.
pub proof fn lemma_tree_shape(s: Seq<Seq<u8>>)
    requires
        s.len() >= 1,
    ensures
        merkle_tree(s).len() == tree_height(s.len()) + 1,
        is_perfect_tree(merkle_tree(s)),
    decreases s.len(),
{
    let t = merkle_tree(s);
    if s.len() > 1 {
        let mid = (s.len() + 1) as int / 2;
        let ls = s.take(mid);
        let rs = if s.len() % 2 == 0 {
            s.skip(mid)
        } else {
            s.skip(mid - 1)
        };
        lemma_tree_shape(ls);
        lemma_tree_shape(rs);
        let left = merkle_tree(ls);
        let right = merkle_tree(rs);
        let merged = Seq::new(left.len(), |d: int| left[d] + right[d]);
        let h = tree_height(s.len());
        assert(rs.len() == mid);
        assert(left.len() == h && right.len() == h);
        assert forall|k: int| 0 <= k < t.len() implies #[trigger] t[k].len() == pow2(
            (t.len() - 1 - k) as nat,
        ) by {
            if k < h {
                assert(t[k] == left[k] + right[k]);
                assert(left[k].len() == pow2((h - 1 - k) as nat));
                assert(pow2((t.len() - 1 - k) as nat) == 2 * pow2((h - 1 - k) as nat));
            } else {
                assert(pow2(0) == 1);
            }
        }
        assert forall|k: int, j: int|
            0 <= k < t.len() - 1 && 0 <= j < t[k + 1].len() implies #[trigger] hashes_below(
            t,
            k,
            j,
        ) by {
            if k < h - 1 {
                let half = left[k + 1].len() as int;
                assert(left[k].len() == 2 * half) by {
                    assert(pow2((h - 1 - k) as nat) == 2 * pow2((h - 1 - (k + 1)) as nat));
                }
                if j < half {
                    assert(hashes_below(left, k, j));
                } else {
                    assert(hashes_below(right, k, j - half));
                }
            } else {
                assert(k == h - 1);
                assert(left[k].len() == 1) by {
                    assert(pow2(0) == 1);
                }
                assert(merged.last() == t[k]);
            }
        }
    }
}

/// Appends the elements of `src` to `dst`, in order.
fn append_layer(dst: &mut Vec<Felt>, src: &Vec<Felt>)
    ensures
        final(dst)@ == old(dst)@ + src@,
{
    let ghost start = dst@;
    let mut j: usize = 0;
    while j < src.len()
        invariant
            0 <= j <= src@.len(),
            dst@ == start + src@.take(j as int),
        decreases src@.len() - j,
    {
        dst.push(src[j]);
        j = j + 1;
        proof {
            assert(src@.take(j as int) == src@.take(j - 1).push(src@[j - 1]));
        }
    }
    proof {
        assert(src@.take(j as int) == src@);
    }
}

/// Builds the tree over the leaves `arr[lo..hi)`.
fn build_range(arr: &[Felt], lo: usize, hi: usize) -> (r: Vec<Vec<Felt>>)
    requires
        lo < hi <= arr@.len(),
    ensures
        tree_view(r@) == merkle_tree(layer_view(arr@).subrange(lo as int, hi as int)),
    decreases hi - lo,
{
    let ghost s = layer_view(arr@).subrange(lo as int, hi as int);
    let n = hi - lo;
    if n == 1 {
        let mut layer: Vec<Felt> = Vec::new();
        layer.push(arr[lo]);
        let mut t: Vec<Vec<Felt>> = Vec::new();
        t.push(layer);
        proof {
            assert(layer_view(layer@) =~= s);
            assert(tree_view(t@) =~= seq![s]);
        }
        return t;
    }
    let mid = n / 2 + n % 2;
    let left = build_range(arr, lo, lo + mid);
    let right = if n % 2 == 0 {
        build_range(arr, lo + mid, hi)
    } else {
        build_range(arr, lo + mid - 1, hi)
    };
    let ghost ls = s.take(mid as int);
    let ghost rs = if s.len() % 2 == 0 {
        s.skip(mid as int)
    } else {
        s.skip(mid - 1)
    };
    let ghost lt = tree_view(left@);
    let ghost rt = tree_view(right@);
    proof {
        assert(ls =~= layer_view(arr@).subrange(lo as int, lo + mid));
        if n % 2 == 0 {
            assert(rs =~= layer_view(arr@).subrange(lo + mid, hi as int));
        } else {
            assert(rs =~= layer_view(arr@).subrange(lo + mid - 1, hi as int));
        }
        lemma_tree_shape(ls);
        lemma_tree_shape(rs);
        assert(lt.len() == rt.len());
    }
    let depth = left.len();
    let mut combined: Vec<Vec<Felt>> = Vec::new();
    let mut d: usize = 0;
    while d < depth
        invariant
            0 <= d <= depth,
            depth == left@.len(),
            depth == right@.len(),
            lt == tree_view(left@),
            rt == tree_view(right@),
            combined@.len() == d,
            forall|e: int| 0 <= e < d ==> #[trigger] layer_view(combined@[e]@) == lt[e] + rt[e],
        decreases depth - d,
    {
        let mut layer: Vec<Felt> = Vec::new();
        append_layer(&mut layer, &left[d]);
        append_layer(&mut layer, &right[d]);
        proof {
            assert(layer_view(layer@) =~= lt[d as int] + rt[d as int]);
        }
        combined.push(layer);
        d = d + 1;
    }
    let ghost merged = Seq::new(lt.len(), |e: int| lt[e] + rt[e]);
    proof {
        assert(tree_view(combined@) =~= merged);
        assert(lt[depth - 1].len() == 1 && rt[depth - 1].len() == 1) by {
            assert(pow2(0) == 1);
        }
        assert(layer_view(combined@[depth - 1]@) == lt[depth - 1] + rt[depth - 1]);
        assert(combined@[depth - 1]@.len() == 2);
    }
    let last = &combined[depth - 1];
    let root = hash_pair(&last[0], &last[last.len() - 1]);
    proof {
        assert(layer_view(last@)[0] == merged.last().first());
        assert(layer_view(last@)[last@.len() - 1] == merged.last().last());
    }
    let mut top: Vec<Felt> = Vec::new();
    top.push(root);
    proof {
        assert(layer_view(top@) =~= seq![root@]);
    }
    combined.push(top);
    proof {
        assert(tree_view(combined@) =~= merged.push(seq![root@]));
    }
    combined
}

/// Builds the tree over `arr`: layer `0` is built from the leaves and the last layer
/// holds the root alone. An empty sequence of leaves has no tree.
pub fn compute_merkle_tree(arr: &[Felt]) -> (r: Vec<Vec<Felt>>)
    requires
        arr@.len() >= 1,
    ensures
        tree_view(r@) == merkle_tree(layer_view(arr@)),
        is_perfect_tree(tree_view(r@)),
{
    proof {
        assert(layer_view(arr@).subrange(0, arr@.len() as int) =~= layer_view(arr@));
        lemma_tree_shape(layer_view(arr@));
    }
    build_range(arr, 0, arr.len())
}

/// The layer above `l`: its element `j` is the hash of elements `2j` and `2j + 1` of `l`.
pub open spec fn parent_layer(l: Seq<Seq<u8>>) -> Seq<Seq<u8>> {
    Seq::new(l.len() / 2, |j: int| poseidon_le(l[2 * j], l[2 * j + 1]))
}

/// The tree of `h + 1` layers whose leaves are `l`, each layer above hashing the one below.
pub open spec fn tree_over(l: Seq<Seq<u8>>, h: nat) -> Seq<Seq<Seq<u8>>>
    decreases h,
{
    if h == 0 {
        seq![l]
    } else {
        seq![l] + tree_over(parent_layer(l), (h - 1) as nat)
    }
}

/// A perfect tree is determined by its leaves.
pub proof fn lemma_perfect_tree_over_leaves(t: Seq<Seq<Seq<u8>>>)
    requires
        is_perfect_tree(t),
    ensures
        t == tree_over(t[0], (t.len() - 1) as nat),
    decreases t.len(),
{
    if t.len() > 1 {
        let up = t.skip(1);
        assert forall|k: int| 0 <= k < up.len() implies #[trigger] up[k].len() == pow2(
            (up.len() - 1 - k) as nat,
        ) by {
            assert(up[k] == t[k + 1]);
        }
        assert forall|k: int, j: int|
            0 <= k < up.len() - 1 && 0 <= j < up[k + 1].len() implies #[trigger] hashes_below(
            up,
            k,
            j,
        ) by {
            assert(hashes_below(t, k + 1, j));
        }
        lemma_perfect_tree_over_leaves(up);
        assert(t[0].len() == pow2((t.len() - 1) as nat));
        assert(t[1].len() == pow2((t.len() - 2) as nat));
        assert(t[0].len() == 2 * t[1].len());
        assert forall|j: int| 0 <= j < t[1].len() implies t[1][j] == parent_layer(t[0])[j] by {
            assert(hashes_below(t, 0, j));
        }
        assert(t[1] =~= parent_layer(t[0]));
        assert(t =~= seq![t[0]] + up);
    }
}

/// The position in layer `d` of the ancestor of leaf `i`.
pub open spec fn ancestor_index(i: int, d: nat) -> int {
    i / (pow2(d) as int)
}

/// The parent that an update computes for position `c` of layer `l`: the hash of `c` and
/// its sibling, the left one first, or of `c` with itself where the sibling lies beyond
/// the layer's end.
pub open spec fn parent_at(l: Seq<Seq<u8>>, c: int) -> Seq<u8> {
    if sibling_index(c) < l.len() {
        if c % 2 == 0 {
            poseidon_le(l[c], l[sibling_index(c)])
        } else {
            poseidon_le(l[sibling_index(c)], l[c])
        }
    } else {
        poseidon_le(l[c], l[c])
    }
}

proof fn lemma_pow2_positive(d: nat)
    ensures
        pow2(d) > 0,
    decreases d,
{
    if d > 0 {
        lemma_pow2_positive((d - 1) as nat);
    }
}

/// The ancestor one layer up is at half the position.
proof fn lemma_ancestor_step(i: int, d: nat)
    requires
        0 <= i,
    ensures
        ancestor_index(i, d) / 2 == ancestor_index(i, d + 1),
        ancestor_index(i, d) >= 0,
{
    lemma_pow2_positive(d);
    vstd::arithmetic::div_mod::lemma_div_denominator(i, pow2(d) as int, 2);
    assert(pow2(d + 1) == pow2(d) * 2);
}

/// In a perfect tree, every leaf has an ancestor inside each layer.
pub proof fn lemma_perfect_tree_ancestors(t: Seq<Seq<Seq<u8>>>, i: int)
    requires
        is_perfect_tree(t),
        0 <= i < t[0].len(),
    ensures
        forall|d: int| 0 <= d < t.len() ==> #[trigger] ancestor_index(i, d as nat) < t[d].len(),
{
    assert forall|d: int| 0 <= d < t.len() implies #[trigger] ancestor_index(i, d as nat)
        < t[d].len() by {
        lemma_perfect_tree_ancestor(t, i, d);
    }
}

proof fn lemma_perfect_tree_ancestor(t: Seq<Seq<Seq<u8>>>, i: int, d: int)
    requires
        is_perfect_tree(t),
        0 <= i < t[0].len(),
        0 <= d < t.len(),
    ensures
        ancestor_index(i, d as nat) < t[d].len(),
    decreases d,
{
    if d == 0 {
        assert(pow2(0) == 1);
    } else {
        lemma_perfect_tree_ancestor(t, i, d - 1);
        lemma_ancestor_step(i, (d - 1) as nat);
        assert(t[d - 1].len() == pow2((t.len() - d) as nat));
        assert(t[d].len() == pow2((t.len() - 1 - d) as nat));
    }
}

/// What an update of leaf `i` to `v` makes of the tree `o`: the same number of layers and
/// the same layer lengths; layer `0` with `v` in place `i`; and in each layer above, the
/// ancestor of leaf `i` replaced by `parent_at` of the new layer below, all else kept.
pub open spec fn is_update_of(t: Seq<Seq<Seq<u8>>>, o: Seq<Seq<Seq<u8>>>, i: int, v: Seq<u8>) -> bool {
    &&& t.len() == o.len()
    &&& forall|k: int| 0 <= k < t.len() ==> #[trigger] t[k].len() == o[k].len()
    &&& t[0] == o[0].update(i, v)
    &&& forall|d: int|
        0 <= d < t.len() - 1 ==> #[trigger] t[d + 1] == o[d + 1].update(
            ancestor_index(i, d as nat) / 2,
            parent_at(t[d], ancestor_index(i, d as nat)),
        )
}

/// An update of a perfect tree gives the perfect tree over the updated leaves.
pub proof fn lemma_update_of_perfect_tree(t: Seq<Seq<Seq<u8>>>, o: Seq<Seq<Seq<u8>>>, i: int, v: Seq<u8>)
    requires
        is_perfect_tree(o),
        0 <= i < o[0].len(),
        is_update_of(t, o, i, v),
    ensures
        is_perfect_tree(t),
        t == tree_over(o[0].update(i, v), (o.len() - 1) as nat),
{
    lemma_perfect_tree_ancestors(o, i);
    assert forall|k: int| 0 <= k < t.len() implies #[trigger] t[k].len() == pow2(
        (t.len() - 1 - k) as nat,
    ) by {
        assert(t[k].len() == o[k].len());
    }
    assert forall|k: int, j: int|
        0 <= k < t.len() - 1 && 0 <= j < t[k + 1].len() implies #[trigger] hashes_below(
        t,
        k,
        j,
    ) by {
        let c = ancestor_index(i, k as nat);
        lemma_ancestor_step(i, k as nat);
        assert(o[k].len() == pow2((o.len() - 1 - k) as nat));
        assert(o[k + 1].len() == pow2((o.len() - 2 - k) as nat));
        assert(o[k].len() == 2 * o[k + 1].len());
        assert(t[k + 1] == o[k + 1].update(c / 2, parent_at(t[k], c)));
        if j != c / 2 {
            assert(hashes_below(o, k, j));
            if k == 0 {
                assert(pow2(0) == 1);
                assert(i / 1 == i);
                assert(c == i);
            } else {
                lemma_ancestor_step(i, (k - 1) as nat);
                assert(t[k] == o[k].update(ancestor_index(i, (k - 1) as nat) / 2, parent_at(t[k - 1], ancestor_index(i, (k - 1) as nat))));
            }
            assert(t[k][2 * j] == o[k][2 * j]);
            assert(t[k][2 * j + 1] == o[k][2 * j + 1]);
        }
    }
    lemma_perfect_tree_over_leaves(t);
}

/// A hash-consistent tree: the last layer holds one element, each layer above another
/// holds half of it rounded up, and each element above the leaves is `parent_at` its left
/// child's position, so that an unpaired tail element is hashed with itself.
pub open spec fn is_consistent_tree(t: Seq<Seq<Seq<u8>>>) -> bool {
    &&& t.len() >= 1
    &&& t.last().len() == 1
    &&& forall|k: int| 0 <= k < t.len() - 1 ==> #[trigger] t[k + 1].len() == (t[k].len() + 1) / 2
    &&& forall|k: int, j: int|
        0 <= k < t.len() - 1 && 0 <= j < t[k + 1].len() ==> #[trigger] t[k + 1][j] == parent_at(
            t[k],
            2 * j,
        )
}

/// Outside the ancestors of leaf `i`, an update keeps every element.
proof fn lemma_update_off_path(t: Seq<Seq<Seq<u8>>>, o: Seq<Seq<Seq<u8>>>, i: int, v: Seq<u8>, k: int, x: int)
    requires
        0 <= i,
        is_update_of(t, o, i, v),
        forall|d: int| 0 <= d < o.len() ==> #[trigger] ancestor_index(i, d as nat) < o[d].len(),
        0 <= k < t.len(),
        0 <= x < t[k].len(),
        x != ancestor_index(i, k as nat),
    ensures
        t[k][x] == o[k][x],
{
    if k == 0 {
        assert(pow2(0) == 1);
        assert(i / 1 == i);
        assert(ancestor_index(i, 0) == i);
        assert(t[0] == o[0].update(i, v));
        assert(ancestor_index(i, 0) < o[0].len());
    } else {
        assert(t[k].len() == o[k].len());
        lemma_ancestor_step(i, (k - 1) as nat);
        assert(t[k] == o[k].update(
            ancestor_index(i, (k - 1) as nat) / 2,
            parent_at(t[k - 1], ancestor_index(i, (k - 1) as nat)),
        ));
        assert(ancestor_index(i, k as nat) < o[k].len());
    }
}

/// An update keeps a hash-consistent tree consistent.
pub proof fn lemma_update_keeps_consistency(t: Seq<Seq<Seq<u8>>>, o: Seq<Seq<Seq<u8>>>, i: int, v: Seq<u8>)
    requires
        is_consistent_tree(o),
        0 <= i < o[0].len(),
        forall|d: int| 0 <= d < o.len() ==> #[trigger] ancestor_index(i, d as nat) < o[d].len(),
        is_update_of(t, o, i, v),
    ensures
        is_consistent_tree(t),
{
    assert(t.last().len() == o.last().len());
    assert forall|k: int| 0 <= k < t.len() - 1 implies #[trigger] t[k + 1].len() == (t[k].len()
        + 1) / 2 by {
        assert(t[k].len() == o[k].len() && t[k + 1].len() == o[k + 1].len());
    }
    assert forall|k: int, j: int|
        0 <= k < t.len() - 1 && 0 <= j < t[k + 1].len() implies #[trigger] t[k + 1][j]
        == parent_at(t[k], 2 * j) by {
        let c = ancestor_index(i, k as nat);
        lemma_ancestor_step(i, k as nat);
        assert(t[k].len() == o[k].len() && t[k + 1].len() == o[k + 1].len());
        assert(c < o[k].len());
        assert(t[k + 1] == o[k + 1].update(c / 2, parent_at(t[k], c)));
        if j != c / 2 {
            assert(o[k + 1][j] == parent_at(o[k], 2 * j));
            lemma_update_off_path(t, o, i, v, k, 2 * j);
            if 2 * j + 1 < t[k].len() {
                lemma_update_off_path(t, o, i, v, k, 2 * j + 1);
            }
        }
    }
}

/// Writing a leaf's own value back into a hash-consistent tree changes nothing.
pub proof fn lemma_update_with_same_value(t: Seq<Seq<Seq<u8>>>, o: Seq<Seq<Seq<u8>>>, i: int)
    requires
        is_consistent_tree(o),
        0 <= i < o[0].len(),
        forall|d: int| 0 <= d < o.len() ==> #[trigger] ancestor_index(i, d as nat) < o[d].len(),
        is_update_of(t, o, i, o[0][i]),
    ensures
        t == o,
{
    assert forall|k: int| 0 <= k < t.len() implies #[trigger] t[k] == o[k] by {
        lemma_update_same_layer(t, o, i, k);
    }
    assert(t =~= o);
}

proof fn lemma_update_same_layer(t: Seq<Seq<Seq<u8>>>, o: Seq<Seq<Seq<u8>>>, i: int, k: int)
    requires
        is_consistent_tree(o),
        0 <= i < o[0].len(),
        forall|d: int| 0 <= d < o.len() ==> #[trigger] ancestor_index(i, d as nat) < o[d].len(),
        is_update_of(t, o, i, o[0][i]),
        0 <= k < t.len(),
    ensures
        t[k] == o[k],
    decreases k,
{
    if k == 0 {
        assert(t[0] =~= o[0]);
    } else {
        lemma_update_same_layer(t, o, i, k - 1);
        let c = ancestor_index(i, (k - 1) as nat);
        lemma_ancestor_step(i, (k - 1) as nat);
        assert(c < o[k - 1].len());
        assert(ancestor_index(i, k as nat) < o[k].len());
        let j = c / 2;
        assert(o[k][j] == parent_at(o[k - 1], 2 * j));
        assert(parent_at(o[k - 1], c) == parent_at(o[k - 1], 2 * j));
        assert(t[k] =~= o[k]);
    }
}

/// Writes `new_value` as leaf `leaf_index` and recomputes each ancestor of that leaf,
/// bottom up, from the values now stored in the tree: the hash of the node and its
/// sibling by the parity of the position, or of the node with itself where the sibling
/// lies beyond the layer's end. Returns the new root. Each layer must hold the ancestor
/// of the leaf. On a perfect tree the result is the perfect tree over the updated leaves;
/// for a tree built over a power-of-two number of leaves that is the tree built over the
/// updated leaves (see `lemma_update_matches_rebuild`). For other leaf counts a
/// duplicated boundary leaf stands twice in layer `0` and only the copy at `leaf_index`
/// is rewritten.
pub fn update_merkle_tree(tree: &mut Vec<Vec<Felt>>, leaf_index: usize, new_value: Felt) -> (r:
    Felt)
    requires
        old(tree)@.len() >= 1,
        leaf_index < old(tree)@[0]@.len(),
        forall|d: int|
            0 <= d < old(tree)@.len() ==> #[trigger] ancestor_index(leaf_index as int, d as nat)
                < old(tree)@[d]@.len(),
    ensures
        is_update_of(
            tree_view(final(tree)@),
            tree_view(old(tree)@),
            leaf_index as int,
            new_value@,
        ),
        r@ == tree_view(final(tree)@).last()[0],
        is_perfect_tree(tree_view(old(tree)@)) ==> is_perfect_tree(tree_view(final(tree)@)),
        is_perfect_tree(tree_view(old(tree)@)) ==> tree_view(final(tree)@) == tree_over(
            tree_view(old(tree)@)[0].update(leaf_index as int, new_value@),
            (old(tree)@.len() - 1) as nat,
        ),
{
    let ghost o = tree_view(tree@);
    let ghost i = leaf_index as int;
    tree[0][leaf_index] = new_value;
    proof {
        assert(tree_view(tree@)[0] =~= o[0].update(i, new_value@));
        assert(pow2(0) == 1);
        assert forall|k: int| 0 <= k < o.len() implies #[trigger] tree_view(tree@)[k].len()
            == o[k].len() by {
            if k != 0 {
                assert(tree_view(tree@)[k] =~= o[k]);
            }
        }
        assert forall|k: int| 0 < k < o.len() implies #[trigger] tree_view(tree@)[k] == o[k] by {
            assert(tree_view(tree@)[k] =~= o[k]);
        }
    }
    let mut current_index = leaf_index;
    let n = tree.len();
    let mut depth: usize = 0;
    while depth < n - 1
        invariant
            n == tree@.len(),
            n == o.len(),
            0 <= i < o[0].len(),
            i == leaf_index,
            forall|d: int| 0 <= d < n ==> #[trigger] ancestor_index(i, d as nat) < o[d].len(),
            0 <= depth < n,
            current_index as int == ancestor_index(i, depth as nat),
            forall|k: int| 0 <= k < n ==> #[trigger] tree_view(tree@)[k].len() == o[k].len(),
            forall|k: int| depth < k < n ==> #[trigger] tree_view(tree@)[k] == o[k],
            tree_view(tree@)[0] == o[0].update(i, new_value@),
            forall|d: int|
                0 <= d < depth ==> #[trigger] tree_view(tree@)[d + 1] == o[d + 1].update(
                    ancestor_index(i, d as nat) / 2,
                    parent_at(tree_view(tree@)[d], ancestor_index(i, d as nat)),
                ),
        decreases n - depth,
    {
        let ghost before = tree_view(tree@);
        proof {
            lemma_ancestor_step(i, depth as nat);
            assert(ancestor_index(i, depth as nat) < o[depth as int].len());
            assert(ancestor_index(i, (depth + 1) as nat) < o[depth + 1].len());
            assert(before[depth as int].len() == tree@[depth as int]@.len());
            assert(tree@[depth + 1]@.len() == before[depth + 1].len());
        }
        let pair_index = if current_index % 2 == 0 {
            current_index + 1
        } else {
            current_index - 1
        };
        let sibling_exists = pair_index < tree[depth].len();
        let parent_index = current_index / 2;
        let new_parent = if sibling_exists {
            if current_index % 2 == 0 {
                hash_pair(&tree[depth][current_index], &tree[depth][pair_index])
            } else {
                hash_pair(&tree[depth][pair_index], &tree[depth][current_index])
            }
        } else {
            hash_pair(&tree[depth][current_index], &tree[depth][current_index])
        };
        proof {
            assert(new_parent@ == parent_at(before[depth as int], current_index as int));
        }
        tree[depth + 1][parent_index] = new_parent;
        proof {
            let after = tree_view(tree@);
            assert(after[depth + 1] =~= before[depth + 1].update(parent_index as int, new_parent@));
            assert forall|k: int| 0 <= k < n && k != depth + 1 implies #[trigger] after[k]
                == before[k] by {
                assert(after[k] =~= before[k]);
            }
            assert forall|k: int| 0 <= k < n implies #[trigger] after[k].len() == o[k].len() by {
                assert(before[k].len() == o[k].len());
                if k != depth + 1 {
                    assert(after[k] =~= before[k]);
                }
            }
            assert forall|d: int| 0 <= d < depth + 1 implies #[trigger] after[d + 1] == o[d
                + 1].update(
                ancestor_index(i, d as nat) / 2,
                parent_at(after[d], ancestor_index(i, d as nat)),
            ) by {
                if d < depth {
                    assert(after[d + 1] == before[d + 1]);
                    assert(after[d] == before[d]);
                } else {
                    assert(after[d] == before[d]);
                }
            }
        }
        current_index = parent_index;
        depth = depth + 1;
    }
    proof {
        let t = tree_view(tree@);
        assert(tree@[n - 1]@.len() >= 1) by {
            lemma_ancestor_step(i, (n - 1) as nat);
            assert(ancestor_index(i, (n - 1) as nat) < o[n - 1].len());
            assert(t[n - 1].len() == o[n - 1].len());
        }
        if is_perfect_tree(o) {
            lemma_update_of_perfect_tree(t, o, i, new_value@);
        }
    }
    tree[n - 1][0]
}

/// The root reached from `current` at position `index` by folding in the path elements,
/// shallowest first: at an odd position the path element is the left input of the hash,
/// at an even one the right input; the position then halves.
pub open spec fn root_from(current: Seq<u8>, index: int, path: Seq<Seq<u8>>) -> Seq<u8>
    decreases path.len(),
{
    if path.len() == 0 {
        current
    } else {
        let next = if index % 2 != 0 {
            poseidon_le(path[0], current)
        } else {
            poseidon_le(current, path[0])
        };
        root_from(next, index / 2, path.drop_first())
    }
}

/// Recomputes the root from `leaf`, its index and its authentication path. Whether it
/// matches a known root is for the caller to compare.
pub fn compute_merkle_root(leaf: Felt, index: usize, hash_path: &[Felt]) -> (r: Felt)
    ensures
        r@ == root_from(leaf@, index as int, layer_view(hash_path@)),
{
    let ghost p = layer_view(hash_path@);
    let n = hash_path.len();
    let mut current_index = index;
    let mut current = leaf;
    let mut i: usize = 0;
    proof {
        assert(p.skip(0) =~= p);
    }
    while i < n
        invariant
            n == hash_path@.len(),
            p == layer_view(hash_path@),
            0 <= i <= n,
            root_from(current@, current_index as int, p.skip(i as int)) == root_from(
                leaf@,
                index as int,
                p,
            ),
        decreases n - i,
    {
        proof {
            assert(p.skip(i as int)[0] == hash_path@[i as int]@);
            assert(p.skip(i as int).drop_first() =~= p.skip(i + 1));
        }
        let path_bit = current_index % 2 != 0;
        current = if path_bit {
            hash_pair(&hash_path[i], &current)
        } else {
            hash_pair(&current, &hash_path[i])
        };
        current_index = current_index / 2;
        i = i + 1;
    }
    proof {
        assert(p.skip(n as int).len() == 0);
    }
    current
}

/// The index of the element paired with index `i` in its layer.
pub open spec fn sibling_index(i: int) -> int {
    if i % 2 == 0 {
        i + 1
    } else {
        i - 1
    }
}

/// The path element that a layer gives for position `i`: the sibling where the layer has
/// one, else the layer's last element.
pub open spec fn path_element(layer: Seq<Seq<u8>>, i: int) -> Seq<u8> {
    if sibling_index(i) < layer.len() {
        layer[sibling_index(i)]
    } else {
        layer.last()
    }
}

/// The path elements of the layers `d` up to the one below the root, for position `i`
/// in layer `d`.
pub open spec fn path_from(t: Seq<Seq<Seq<u8>>>, d: int, i: int) -> Seq<Seq<u8>>
    decreases t.len() - d,
{
    if d + 1 >= t.len() {
        seq![]
    } else {
        seq![path_element(t[d], i)] + path_from(t, d + 1, i / 2)
    }
}

/// The authentication path of leaf `i`: one element for each layer but the root's.
pub open spec fn merkle_path(t: Seq<Seq<Seq<u8>>>, i: int) -> Seq<Seq<u8>> {
    path_from(t, 0, i)
}

/// The authentication path of leaf `leaf_index`. The index must name a leaf.
pub fn compute_merkle_path(tree: &Vec<Vec<Felt>>, leaf_index: usize) -> (r: Vec<Felt>)
    requires
        tree@.len() >= 1,
        forall|d: int| 0 <= d < tree@.len() ==> #[trigger] tree@[d]@.len() >= 1,
        leaf_index < tree@[0]@.len(),
    ensures
        layer_view(r@) == merkle_path(tree_view(tree@), leaf_index as int),
        r@.len() == tree@.len() - 1,
{
    let ghost t = tree_view(tree@);
    let mut path: Vec<Felt> = Vec::new();
    let mut current_index = leaf_index;
    let n = tree.len() - 1;
    let mut depth: usize = 0;
    proof {
        assert(layer_view(path@) + path_from(t, 0, leaf_index as int) =~= merkle_path(
            t,
            leaf_index as int,
        ));
    }
    while depth < n
        invariant
            n + 1 == tree@.len(),
            t == tree_view(tree@),
            forall|d: int| 0 <= d < tree@.len() ==> #[trigger] tree@[d]@.len() >= 1,
            0 <= depth <= n,
            current_index <= leaf_index,
            leaf_index < tree@[0]@.len(),
            path@.len() == depth,
            layer_view(path@) + path_from(t, depth as int, current_index as int) == merkle_path(
                t,
                leaf_index as int,
            ),
        decreases n - depth,
    {
        let ghost before = path@;
        let layer = &tree[depth];
        let pair_index = if current_index % 2 == 0 {
            current_index + 1
        } else {
            current_index - 1
        };
        if pair_index < layer.len() {
            path.push(layer[pair_index]);
        } else {
            path.push(layer[layer.len() - 1]);
        }
        proof {
            assert(t[depth as int] == layer_view(layer@));
            assert(path@[depth as int]@ == path_element(t[depth as int], current_index as int));
            assert(layer_view(path@) =~= layer_view(before).push(
                path_element(t[depth as int], current_index as int),
            ));
            assert(path_from(t, depth as int, current_index as int) == seq![
                path_element(t[depth as int], current_index as int),
            ] + path_from(t, depth + 1, current_index as int / 2));
            assert(layer_view(path@) + path_from(t, depth + 1, current_index as int / 2)
                =~= layer_view(before) + path_from(t, depth as int, current_index as int));
        }
        current_index = current_index / 2;
        depth = depth + 1;
    }
    proof {
        assert(path_from(t, n as int, current_index as int) =~= seq![]);
        assert(layer_view(path@) + seq![] =~= layer_view(path@));
    }
    path
}

/// The root computed by the root-only variant, which splits at `floor(n / 2)`: the left
/// half is `s[0..mid)`; for even `n` the right half is `s[mid..n)`, and for odd `n` the
/// right root is the hash of `s[mid - 1]` with itself, so the leaves from `mid` on do
/// not count.
pub open spec fn merkle_root2(s: Seq<Seq<u8>>) -> Seq<u8>
    decreases s.len(),
{
    if s.len() <= 1 {
        s[0]
    } else {
        let mid = s.len() as int / 2;
        let left = merkle_root2(s.take(mid));
        let right = if s.len() % 2 == 0 {
            merkle_root2(s.skip(mid))
        } else {
            merkle_root2(seq![s[mid - 1], s[mid - 1]])
        };
        poseidon_le(left, right)
    }
}

/// The root-only variant over `arr[lo..hi)`.
fn root2_range(arr: &[Felt], lo: usize, hi: usize) -> (r: Felt)
    requires
        lo < hi <= arr@.len(),
    ensures
        r@ == merkle_root2(layer_view(arr@).subrange(lo as int, hi as int)),
    decreases hi - lo, 0nat,
{
    let ghost s = layer_view(arr@).subrange(lo as int, hi as int);
    let n = hi - lo;
    if n == 1 {
        return arr[lo];
    }
    let mid = n / 2;
    let left = root2_range(arr, lo, lo + mid);
    proof {
        assert(s.take(mid as int) =~= layer_view(arr@).subrange(lo as int, lo + mid));
    }
    let right = if n % 2 == 0 {
        proof {
            assert(s.skip(mid as int) =~= layer_view(arr@).subrange(lo + mid, hi as int));
        }
        root2_range(arr, lo + mid, hi)
    } else {
        let x = arr[lo + mid - 1];
        let pair = vec![x, x];
        let r = root2_range(pair.as_slice(), 0, 2);
        proof {
            assert(layer_view(pair@).subrange(0, 2) =~= seq![s[mid - 1], s[mid - 1]]);
        }
        r
    };
    hash_pair(&left, &right)
}

/// The root alone, computed by the root-only variant (see `merkle_root2`). An empty
/// sequence of leaves has no root.
pub fn compute_merkle_tree2(arr: &[Felt]) -> (r: Felt)
    requires
        arr@.len() >= 1,
    ensures
        r@ == merkle_root2(layer_view(arr@)),
{
    proof {
        assert(layer_view(arr@).subrange(0, arr@.len() as int) =~= layer_view(arr@));
    }
    root2_range(arr, 0, arr.len())
}

/// `n` is a power of two.
pub open spec fn is_power_of_two(n: nat) -> bool
    decreases n,
{
    if n <= 1 {
        n == 1
    } else {
        n % 2 == 0 && is_power_of_two(n / 2)
    }
}

/// Layer `0` of the tree built over a power-of-two number of leaves is the leaves
/// themselves, in order. (For other counts the duplicated boundary leaves stand in it
/// too: over three leaves `a, b, c` it is `a, b, b, c`.)
pub proof fn lemma_first_layer_is_leaves(s: Seq<Seq<u8>>)
    requires
        is_power_of_two(s.len()),
    ensures
        merkle_tree(s)[0] == s,
    decreases s.len(),
{
    if s.len() > 1 {
        let mid = (s.len() + 1) as int / 2;
        assert(mid == s.len() / 2);
        lemma_first_layer_is_leaves(s.take(mid));
        lemma_first_layer_is_leaves(s.skip(mid));
        lemma_tree_shape(s.take(mid));
        assert(s.take(mid) + s.skip(mid) =~= s);
    }
}

/// In a perfect tree, folding the path of position `i` of layer `d` into that position's
/// element gives the root.
proof fn lemma_path_reaches_root(t: Seq<Seq<Seq<u8>>>, d: int, i: int)
    requires
        is_perfect_tree(t),
        0 <= d < t.len(),
        0 <= i < t[d].len(),
    ensures
        root_from(t[d][i], i, path_from(t, d, i)) == t.last()[0],
    decreases t.len() - d,
{
    if d + 1 < t.len() {
        assert(t[d].len() == pow2((t.len() - 1 - d) as nat));
        assert(t[d + 1].len() == pow2((t.len() - 2 - d) as nat));
        let j = i / 2;
        assert(hashes_below(t, d, j));
        let rest = path_from(t, d + 1, j);
        assert(path_from(t, d, i) == seq![path_element(t[d], i)] + rest);
        assert((seq![path_element(t[d], i)] + rest).drop_first() =~= rest);
        lemma_path_reaches_root(t, d + 1, j);
    } else {
        assert(t[d].len() == pow2(0));
    }
}

/// For every leaf of a built tree, recomputing the root from the leaf, its index and its
/// authentication path gives the tree's root.
pub proof fn lemma_path_round_trip(s: Seq<Seq<u8>>, i: int)
    requires
        s.len() >= 1,
        0 <= i < merkle_tree(s)[0].len(),
    ensures
        root_from(merkle_tree(s)[0][i], i, merkle_path(merkle_tree(s), i)) == merkle_tree(
            s,
        ).last()[0],
{
    lemma_tree_shape(s);
    lemma_path_reaches_root(merkle_tree(s), 0, i);
}

/// Updating leaf `i` of the tree built over a power-of-two number of leaves gives the
/// tree built over the leaves with `v` in place `i`, and the new leaf's path leads to the
/// new root.
pub proof fn lemma_update_matches_rebuild(s: Seq<Seq<u8>>, i: int, v: Seq<u8>)
    requires
        is_power_of_two(s.len()),
        0 <= i < s.len(),
    ensures
        tree_over(merkle_tree(s)[0].update(i, v), (merkle_tree(s).len() - 1) as nat)
            == merkle_tree(s.update(i, v)),
        root_from(v, i, merkle_path(merkle_tree(s.update(i, v)), i)) == merkle_tree(
            s.update(i, v),
        ).last()[0],
{
    let s2 = s.update(i, v);
    assert(s.len() >= 1);
    lemma_first_layer_is_leaves(s);
    lemma_first_layer_is_leaves(s2);
    lemma_tree_shape(s);
    lemma_tree_shape(s2);
    let t2 = merkle_tree(s2);
    lemma_perfect_tree_over_leaves(t2);
    lemma_path_reaches_root(t2, 0, i);
}

/// A single leaf is a tree of one layer: the leaf is its own root and its path is empty.
pub proof fn lemma_single_leaf(x: Seq<u8>)
    ensures
        merkle_tree(seq![x]) == seq![seq![x]],
        merkle_path(merkle_tree(seq![x]), 0) == Seq::<Seq<u8>>::empty(),
        root_from(x, 0, merkle_path(merkle_tree(seq![x]), 0)) == x,
{
    assert(merkle_path(merkle_tree(seq![x]), 0) =~= Seq::<Seq<u8>>::empty());
}

} // verus!
