//! The order in which the drawables of a diagram are rendered: by layer, and
//! within a layer in the order in which they were given.

use vstd::prelude::*;

verus! {

/// `(layer, index)` pairs ordered by layer, then by index.
pub open spec fn layered_before(layers: Seq<i32>, a: usize, b: usize) -> bool {
    layers[a as int] < layers[b as int] || (layers[a as int] == layers[b as int] && a < b)
}

/// `a` comes before `b` exactly when its layer is lower, or the layers are
/// equal and `a` is the lower index.
pub proof fn lemma_layered_before(layers: Seq<i32>, a: usize, b: usize)
    ensures
        layered_before(layers, a, b) <==> (layers[a as int] < layers[b as int] || (layers[a as int]
            == layers[b as int] && a < b)),
{
}

/// In a draw order, every index of a lower layer comes before every index of
/// a higher layer, and indices of one layer keep their given order.
pub proof fn lemma_draw_order_by_layer(layers: Seq<i32>, order: Seq<usize>, i: int, j: int)
    requires
        is_draw_order(layers, order),
        0 <= i < j < order.len(),
    ensures
        layers[order[i] as int] <= layers[order[j] as int],
        layers[order[i] as int] == layers[order[j] as int] ==> order[i] < order[j],
{
    lemma_layered_before(layers, order[i], order[j]);
}

/// `order` lists each index below `layers.len()` once, lowest layer first,
/// and keeps the given order within a layer (a stable sort by layer).
pub open spec fn is_draw_order(layers: Seq<i32>, order: Seq<usize>) -> bool {
    &&& order.len() == layers.len()
    &&& forall|i: int| 0 <= i < order.len() ==> #[trigger] order[i] < layers.len()
    &&& forall|i: int, j: int|
        0 <= i < j < order.len() ==> layered_before(layers, #[trigger] order[i], #[trigger] order[j])
}

/// The indices of the drawables, sorted stably by their layers.
pub fn draw_order(layers: &Vec<i32>) -> (order: Vec<usize>)
    ensures
        is_draw_order(layers@, order@),
        forall|i: int, j: int|
            0 <= i < j < order.len() ==> {
                let (a, b) = (#[trigger] order[i], #[trigger] order[j]);
                &&& layers@[a as int] <= layers@[b as int]
                &&& layers@[a as int] == layers@[b as int] ==> a < b
            },
{
    let n = layers.len();
    let mut order: Vec<usize> = Vec::new();
    let mut k: usize = 0;
    while k < n
        invariant
            k <= n,
            n == layers.len(),
            order.len() == k,
            forall|i: int| 0 <= i < order.len() ==> #[trigger] order[i] < k,
            forall|i: int, j: int|
                0 <= i < j < order.len() ==> layered_before(layers@, #[trigger] order[i], #[trigger] order[j]),
        decreases n - k,
    {
        let layer = layers[k];
        // The new index goes after every entry of its layer or below.
        let mut pos: usize = 0;
        while pos < order.len() && layers[order[pos]] <= layer
            invariant
                pos <= order.len(),
                n == layers.len(),
                k < n,
                layer == layers@[k as int],
                forall|i: int| 0 <= i < order.len() ==> #[trigger] order[i] < k,
                forall|i: int| 0 <= i < pos ==> layers@[#[trigger] order[i] as int] <= layer,
            decreases order.len() - pos,
        {
            pos = pos + 1;
        }
        let ghost before = order@;
        proof {
            assert forall|j: int| pos <= j < before.len() implies layer < layers@[#[trigger] before[j] as int] by {
                assert(layered_before(layers@, before[pos as int], before[j]) || j == pos);
            }
        }
        order.insert(pos, k);
        proof {
            assert forall|i: int, j: int|
                0 <= i < j < order.len() implies layered_before(layers@, #[trigger] order[i], #[trigger] order[j]) by {
                if j < pos {
                    assert(order[i] == before[i] && order[j] == before[j]);
                } else if j == pos {
                    assert(order[i] == before[i]);
                } else if i < pos {
                    assert(order[i] == before[i] && order[j] == before[j - 1]);
                } else if i == pos {
                    assert(order[j] == before[j - 1]);
                } else {
                    assert(order[i] == before[i - 1] && order[j] == before[j - 1]);
                }
            }
        }
        k = k + 1;
    }
    order
}

} // verus!
