//! Burning one layer away to embers and growing it back: which layers can be chosen.

use vstd::prelude::*;

verus! {

/// Whether `free` lists, in order, exactly the layers below `n` that `busy` does not hold.
pub open spec fn lists_free(free: Seq<usize>, n: nat, busy: Seq<usize>) -> bool {
    &&& forall|i: int, j: int| 0 <= i < j < free.len() ==> free[i] < free[j]
    &&& forall|i: int| 0 <= i < free.len() ==> (#[trigger] free[i]) < n && !busy.contains(free[i])
    &&& forall|l: usize| l < n && !busy.contains(l) ==> #[trigger] free.contains(l)
}

/// The layers of `n` that are not already burning (`busy`), in order: the ones a new
/// dissolve may pick from, so no layer burns twice at once.
pub fn free_layers(n: usize, busy: &[usize]) -> (free: Vec<usize>)
    ensures
        lists_free(free@, n as nat, busy@),
{
    let mut free: Vec<usize> = Vec::new();
    let mut l: usize = 0;
    while l < n
        invariant
            l <= n,
            forall|i: int, j: int| 0 <= i < j < free@.len() ==> free@[i] < free@[j],
            forall|i: int| 0 <= i < free@.len() ==> (#[trigger] free@[i]) < l && !busy@.contains(free@[i]),
            forall|k: usize| k < l && !busy@.contains(k) ==> #[trigger] free@.contains(k),
        decreases n - l,
    {
        let mut taken = false;
        let mut b: usize = 0;
        while b < busy.len()
            invariant
                b <= busy@.len(),
                taken <==> exists|j: int| 0 <= j < b && busy@[j] == l,
            decreases busy@.len() - b,
        {
            if busy[b] == l {
                taken = true;
            }
            b += 1;
        }
        let ghost before = free@;
        if !taken {
            free.push(l);
            proof {
                assert forall|k: usize| k < l + 1 && !busy@.contains(k) implies #[trigger] free@.contains(k) by {
                    if k == l {
                        assert(free@[before.len() as int] == l);
                    } else {
                        assert(before.contains(k));
                        let i = choose|i: int| 0 <= i < before.len() && before[i] == k;
                        assert(free@[i] == k);
                    }
                }
            }
        } else {
            proof {
                let j = choose|j: int| 0 <= j < busy@.len() && busy@[j] == l;
                assert(busy@.contains(l));
            }
        }
        l += 1;
    }
    free
}

} // verus!
