//! What a figure must satisfy beyond parsing, where it concerns whole numbers: the loop,
//! how many layers there are, their names, and the order they are stacked in.

use crate::chars::{debug_quoted, debug_text, decimal, from_chars, push_decimal, push_str};
use super::error::FigureError;
use super::spec::{LayerSpec, Loop};
use vstd::prelude::*;

verus! {

/// The most layers a figure may have: the length of the shader's layer array.
pub const MAX_LAYERS: usize = 16;

/// A figure's loop is usable when it has at least one frame at one frame per second.
pub fn check_loop(timing: Loop) -> (r: Result<(), FigureError>)
    ensures
        r is Ok <==> timing.frames >= 1 && timing.fps >= 1,
        r matches Err(e) ==> e@.context == "loop"@ && e@.message
            == "`frames` and `fps` must both be at least 1"@ && e@.file is None
            && e@.position is None,
{
    if timing.frames == 0 || timing.fps == 0 {
        let e = FigureError::new(String::from_str("`frames` and `fps` must both be at least 1"));
        return Err(e.context(String::from_str("loop")));
    }
    Ok(())
}

/// What is said about a figure with `n` layers, too few or too many.
pub open spec fn layer_count_complaint(n: nat) -> Seq<char> {
    "need between 1 and "@ + decimal(MAX_LAYERS as nat) + " layers, got "@ + decimal(n)
}

/// A figure needs between 1 and `MAX_LAYERS` layers.
pub fn check_layer_count(n: usize) -> (r: Result<(), FigureError>)
    ensures
        r is Ok <==> 1 <= n <= MAX_LAYERS,
        r matches Err(e) ==> e@.context == "layers"@ && e@.message == layer_count_complaint(
            n as nat,
        ) && e@.file is None && e@.position is None,
{
    if n == 0 || n > MAX_LAYERS {
        let mut m: Vec<char> = Vec::new();
        push_str(&mut m, "need between 1 and ");
        push_decimal(&mut m, MAX_LAYERS as u64);
        push_str(&mut m, " layers, got ");
        push_decimal(&mut m, n as u64);
        let e = FigureError::new(from_chars(&m));
        return Err(e.context(String::from_str("layers")));
    }
    Ok(())
}

/// Whether layer `i` has a name an earlier layer already has.
pub open spec fn name_taken(names: Seq<Seq<char>>, i: int) -> bool {
    exists|j: int| 0 <= j < i && names[j] == names[i]
}

/// Whether the name of layer `i` is already taken by an earlier layer (names must be
/// unique, so that `i` is the first layer where that fails is what gets reported).
pub fn is_name_taken(names: &[String], i: usize) -> (b: bool)
    requires
        i < names@.len(),
    ensures
        b == name_taken(names@.map_values(|s: String| s@), i as int),
{
    let ghost views = names@.map_values(|s: String| s@);
    let mut j: usize = 0;
    while j < i
        invariant
            i < names@.len(),
            views == names@.map_values(|s: String| s@),
            j <= i,
            forall|k: int| 0 <= k < j ==> views[k] != views[i as int],
        decreases i - j,
    {
        if names[j] == names[i] {
            assert(views[j as int] == views[i as int]);
            return true;
        }
        j += 1;
    }
    false
}

/// Where layer `i` is, as an error says it: `layers[i] "name"`.
pub open spec fn layer_place(i: nat, name: Seq<char>) -> Seq<char> {
    "layers["@ + decimal(i) + "] "@ + debug_quoted(name)
}

/// Where layer `i`, named `name`, is in the figure, for an error's context.
pub fn layer_context(i: usize, name: &str) -> (s: String)
    ensures
        s@ == layer_place(i as nat, name@),
{
    let mut m: Vec<char> = Vec::new();
    push_str(&mut m, "layers[");
    push_decimal(&mut m, i as u64);
    push_str(&mut m, "] ");
    let q = debug_text(name);
    push_str(&mut m, q.as_str());
    from_chars(&m)
}

/// The error for layer `i`, named `name`, whose name an earlier layer already has.
pub fn duplicate_name(i: usize, name: &str) -> (e: FigureError)
    ensures
        e@.context == layer_place(i as nat, name@),
        e@.message == "another layer already has this name"@,
        e@.file is None,
        e@.position is None,
{
    FigureError::new(String::from_str("another layer already has this name")).context(
        layer_context(i, name),
    )
}

/// Whether `order` puts the layers with the stacking values `zs` bottom first: by `z`, and
/// among equal `z` in the order they were written.
pub open spec fn stacked(zs: Seq<i32>, order: Seq<usize>) -> bool {
    forall|a: int, b: int|
        0 <= a < b < order.len() ==> {
            ||| zs[order[a] as int] < zs[order[b] as int]
            ||| (zs[order[a] as int] == zs[order[b] as int] && order[a] < order[b])
        }
}

/// The order the layers are drawn in, bottom first, given each layer's `z` in file order:
/// a higher `z` draws on top, and layers with the same `z` keep the order they are written
/// in (a stable sort by `z`). Every layer appears exactly once.
pub fn stacking_order(zs: &[i32]) -> (order: Vec<usize>)
    ensures
        order@.len() == zs@.len(),
        forall|a: int| 0 <= a < order@.len() ==> (#[trigger] order@[a]) < zs@.len(),
        forall|k: usize| k < zs@.len() ==> #[trigger] order@.contains(k),
        order@.no_duplicates(),
        stacked(zs@, order@),
{
    let mut order: Vec<usize> = Vec::new();
    let mut i: usize = 0;
    while i < zs.len()
        invariant
            i <= zs@.len(),
            order@.len() == i,
            forall|a: int| 0 <= a < order@.len() ==> (#[trigger] order@[a]) < i,
            forall|k: usize| k < i ==> #[trigger] order@.contains(k),
            order@.no_duplicates(),
            stacked(zs@, order@),
        decreases zs@.len() - i,
    {
        // After every layer that is not above it.
        let mut p: usize = 0;
        while p < order.len() && zs[order[p]] <= zs[i]
            invariant
                i < zs@.len(),
                p <= order@.len(),
                order@.len() == i,
                forall|a: int| 0 <= a < order@.len() ==> (#[trigger] order@[a]) < i,
                forall|a: int| 0 <= a < p ==> zs[#[trigger] order@[a] as int] <= zs[i as int],
            decreases order@.len() - p,
        {
            p += 1;
        }
        let ghost before = order@;
        proof {
            // Everything from `p` on is above layer `i`.
            assert forall|a: int| p <= a < before.len() implies zs[#[trigger] before[a] as int]
                > zs[i as int] by {
                if p < before.len() {
                    assert(zs[before[p as int] as int] > zs[i as int]);
                    if a > p {
                        assert(stacked(zs@, before));
                    }
                }
            }
        }
        order.insert(p, i);
        proof {
            let now = order@;
            assert(now == before.insert(p as int, i));
            assert forall|a: int, b: int| 0 <= a < b < now.len() implies {
                ||| zs[now[a] as int] < zs[now[b] as int]
                ||| (zs[now[a] as int] == zs[now[b] as int] && now[a] < now[b])
            } by {
                if a < p && b < p {
                    assert(now[a] == before[a] && now[b] == before[b]);
                } else if a < p && b == p {
                    assert(now[a] == before[a] && now[b] == i);
                } else if a < p {
                    assert(now[a] == before[a] && now[b] == before[b - 1]);
                } else if a == p {
                    assert(now[a] == i && now[b] == before[b - 1]);
                } else {
                    assert(now[a] == before[a - 1] && now[b] == before[b - 1]);
                }
            }
            assert forall|k: usize| k < i + 1 implies #[trigger] now.contains(k) by {
                if k == i {
                    assert(now[p as int] == i);
                } else {
                    assert(before.contains(k));
                    let a = choose|a: int| 0 <= a < before.len() && before[a] == k;
                    if a < p {
                        assert(now[a] == k);
                    } else {
                        assert(now[a + 1] == k);
                    }
                }
            }
            assert forall|a: int| 0 <= a < now.len() implies (#[trigger] now[a]) < i + 1 by {
                if a < p {
                    assert(now[a] == before[a]);
                } else if a > p {
                    assert(now[a] == before[a - 1]);
                }
            }
            assert forall|a: int, b: int| 0 <= a < now.len() && 0 <= b < now.len() && a != b implies
                #[trigger] now[a] != #[trigger] now[b] by {
                if a < p {
                    assert(now[a] == before[a]);
                } else if a > p {
                    assert(now[a] == before[a - 1]);
                }
                if b < p {
                    assert(now[b] == before[b]);
                } else if b > p {
                    assert(now[b] == before[b - 1]);
                }
            }
        }
        i += 1;
    }
    order
}

/// The stacking value of each layer, in file order.
pub open spec fn layer_zs<E>(layers: Seq<LayerSpec<E>>) -> Seq<i32> {
    layers.map_values(|l: LayerSpec<E>| l.z)
}

/// Whether `order` lists each of `n` layers exactly once.
pub open spec fn is_arrangement(order: Seq<usize>, n: nat) -> bool {
    &&& order.len() == n
    &&& forall|a: int| 0 <= a < order.len() ==> (#[trigger] order[a]) < n
    &&& forall|k: usize| k < n ==> #[trigger] order.contains(k)
}

/// The layers in stacking order, bottom first: by `z`, and among equal `z` in the order
/// they were written (a stable sort by `z`). This is the only order anything downstream
/// sees.
pub fn stack_layers<E>(layers: Vec<LayerSpec<E>>) -> (out: Vec<LayerSpec<E>>)
    ensures
        exists|order: Seq<usize>|
            {
                &&& is_arrangement(order, layers@.len())
                &&& stacked(layer_zs(layers@), order)
                &&& out@ == order.map_values(|k: usize| layers@[k as int])
            },
{
    let ghost all = layers@;
    let n = layers.len();
    let mut zs: Vec<i32> = Vec::new();
    let mut i: usize = 0;
    while i < n
        invariant
            n == all.len(),
            layers@ == all,
            i <= n,
            zs@ == layer_zs(all).take(i as int),
        decreases n - i,
    {
        zs.push(layers[i].z);
        i += 1;
    }
    assert(zs@ == layer_zs(all));
    let order = stacking_order(&zs);
    // Each layer waits in its slot until its turn comes.
    let mut slots: Vec<Option<LayerSpec<E>>> = Vec::new();
    let mut rest = layers;
    let mut i: usize = 0;
    while rest.len() > 0
        invariant
            n == all.len(),
            i + rest@.len() == all.len(),
            rest@ == all.skip(i as int),
            slots@.len() == i,
            forall|k: int| 0 <= k < i ==> #[trigger] slots@[k] == Some(all[k]),
        decreases rest@.len(),
    {
        let l = rest.remove(0);
        proof {
            assert(l == all[i as int]);
            assert(rest@ == all.skip(i + 1));
        }
        slots.push(Some(l));
        i += 1;
    }
    let mut out: Vec<LayerSpec<E>> = Vec::new();
    let mut j: usize = 0;
    while j < n
        invariant
            n == all.len(),
            order@.len() == n,
            forall|a: int| 0 <= a < n ==> (#[trigger] order@[a]) < n,
            order@.no_duplicates(),
            slots@.len() == n,
            j <= n,
            forall|k: int|
                0 <= k < n && !order@.take(j as int).contains(k as usize) ==> #[trigger] slots@[k]
                    == Some(all[k]),
            out@ == order@.take(j as int).map_values(|k: usize| all[k as int]),
        decreases n - j,
    {
        let k = order[j];
        proof {
            assert(!order@.take(j as int).contains(k)) by {
                if order@.take(j as int).contains(k) {
                    let a = choose|a: int| 0 <= a < j && order@.take(j as int)[a] == k;
                    assert(order@[a] == order@[j as int]);
                }
            }
        }
        let taken = slots[k].take();
        let l = taken.unwrap();
        out.push(l);
        proof {
            assert(order@.take(j + 1) == order@.take(j as int).push(k));
            assert forall|m: int|
                0 <= m < n && !order@.take(j + 1).contains(m as usize) implies #[trigger] slots@[m]
                    == Some(all[m]) by {
                assert(order@.take(j as int).push(k)[j as int] == k);
                if order@.take(j as int).contains(m as usize) {
                    let a = choose|a: int| 0 <= a < j && order@.take(j as int)[a] == m as usize;
                    assert(order@.take(j + 1)[a] == m as usize);
                }
            }
            assert(out@ == order@.take(j + 1).map_values(|k: usize| all[k as int]));
        }
        j += 1;
    }
    proof {
        assert(order@.take(n as int) == order@);
        assert(is_arrangement(order@, all.len()));
    }
    out
}

/// The stacking keeps its promises: a layer with a lower `z` is drawn before (under) one
/// with a higher `z`, and of two layers with the same `z` the one written first is drawn
/// first.
pub proof fn lemma_stacking(zs: Seq<i32>, order: Seq<usize>, a: int, b: int)
    requires
        stacked(zs, order),
        0 <= a < order.len(),
        0 <= b < order.len(),
        order[a] < zs.len(),
        order[b] < zs.len(),
    ensures
        zs[order[a] as int] < zs[order[b] as int] ==> a < b,
        zs[order[a] as int] == zs[order[b] as int] && order[a] < order[b] ==> a < b,
{
    if b < a {
        assert(stacked(zs, order));
    }
}

} // verus!
