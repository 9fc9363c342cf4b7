//! Choosing the processors to pin worker threads to: of the processors
//! that share a physical core, one is preferred.

use crate::order::{lemma_sorted_order, sort_indices, sorted_order, Keys};
use vstd::prelude::*;
use vstd::relations::total_ordering;

verus! {

/// Whether one processor, given as core, socket and number, comes before
/// another: by core, then by socket, then by number.
pub open spec fn cpu_lt(a: (usize, usize, usize), b: (usize, usize, usize)) -> bool {
    a.0 < b.0 || (a.0 == b.0 && (a.1 < b.1 || (a.1 == b.1 && a.2 < b.2)))
}

/// Row `i` stands at or before row `j`: its processor comes first, or the
/// two are the same and `i` is not the later row.
pub open spec fn cpu_leq(cpus: Seq<(usize, usize, usize)>) -> spec_fn(usize, usize) -> bool {
    |i: usize, j: usize| cpu_lt(cpus[i as int], cpus[j as int]) || (cpus[i as int] == cpus[j as int] && i <= j)
}

/// `cpu_leq` is a total order of the rows.
pub proof fn lemma_cpu_leq_total(cpus: Seq<(usize, usize, usize)>)
    ensures
        total_ordering(cpu_leq(cpus)),
{
    let leq = cpu_leq(cpus);
    assert forall|x: usize, y: usize| #[trigger] leq(x, y) && #[trigger] leq(y, x) implies x == y by {}
    assert forall|x: usize, y: usize, z: usize| #[trigger] leq(x, y) && #[trigger] leq(y, z) implies leq(
        x,
        z,
    ) by {}
    assert forall|x: usize, y: usize| #[trigger] leq(x, y) || #[trigger] leq(y, x) by {}
}

/// The processors as a table of rows to sort.
pub struct CpuKeys<'c> {
    pub cpus: &'c Vec<(usize, usize, usize)>,
}

impl<'c> Keys for CpuKeys<'c> {
    open spec fn rows(&self) -> nat {
        self.cpus@.len()
    }

    open spec fn leq(&self) -> spec_fn(usize, usize) -> bool {
        cpu_leq(self.cpus@)
    }

    proof fn lemma_total(&self) {
        lemma_cpu_leq_total(self.cpus@);
    }

    fn count(&self) -> (n: usize) {
        self.cpus.len()
    }

    fn at_or_before(&self, i: usize, j: usize) -> (r: bool) {
        let a = self.cpus[i];
        let b = self.cpus[j];
        if a.0 != b.0 {
            a.0 < b.0
        } else if a.1 != b.1 {
            a.1 < b.1
        } else if a.2 != b.2 {
            a.2 < b.2
        } else {
            i <= j
        }
    }
}

/// The processors in ascending order.
pub open spec fn sorted_cpus(cpus: Seq<(usize, usize, usize)>) -> Seq<(usize, usize, usize)> {
    Seq::new(cpus.len(), |k: int| cpus[sorted_order(cpus.len(), cpu_leq(cpus))[k] as int])
}

/// Of processors in ascending order the number of each one that is the
/// first of its core on its socket.
pub open spec fn first_of_each_core(sorted: Seq<(usize, usize, usize)>) -> Seq<usize>
    decreases sorted.len(),
{
    if sorted.len() == 0 {
        Seq::empty()
    } else {
        let before = first_of_each_core(sorted.drop_last());
        if sorted.len() >= 2 && sorted[sorted.len() - 2].0 == sorted.last().0 && sorted[sorted.len()
            - 2].1 == sorted.last().1 {
            before
        } else {
            before.push(sorted.last().2)
        }
    }
}

/// The processors to pin threads to, from the core, the socket and the
/// number of every processor: the processors are put in ascending order,
/// and of those that share a core on a socket the first is taken.
pub fn preferred_cpus(all_cpus: &Vec<(usize, usize, usize)>) -> (preferred: Vec<usize>)
    ensures
        preferred@ == first_of_each_core(sorted_cpus(all_cpus@)),
{
    let keys = CpuKeys { cpus: all_cpus };
    let order = sort_indices(&keys);
    let ghost sorted = sorted_cpus(all_cpus@);
    proof {
        lemma_cpu_leq_total(all_cpus@);
        lemma_sorted_order(all_cpus@.len(), cpu_leq(all_cpus@));
    }
    let mut preferred: Vec<usize> = Vec::new();
    let mut k: usize = 0;
    proof {
        assert(sorted.take(0) =~= Seq::<(usize, usize, usize)>::empty());
    }
    while k < order.len()
        invariant
            k <= order@.len(),
            order@.len() == all_cpus@.len(),
            order@ == sorted_order(all_cpus@.len(), cpu_leq(all_cpus@)),
            forall|a: int| 0 <= a < order@.len() ==> (#[trigger] order@[a]) < all_cpus@.len(),
            sorted == sorted_cpus(all_cpus@),
            preferred@ == first_of_each_core(sorted.take(k as int)),
        decreases order@.len() - k,
    {
        let cpu = all_cpus[order[k]];
        proof {
            let grown = sorted.take(k + 1);
            assert(grown.drop_last() =~= sorted.take(k as int));
            assert(grown.last() == cpu);
            if k > 0 {
                assert(grown[grown.len() - 2] == all_cpus@[order@[k - 1] as int]);
            }
        }
        let shares: bool = k > 0 && all_cpus[order[k - 1]].0 == cpu.0 && all_cpus[order[k - 1]].1 == cpu.1;
        if !shares {
            preferred.push(cpu.2);
        }
        k += 1;
    }
    proof {
        assert(sorted.take(order@.len() as int) =~= sorted);
    }
    preferred
}

} // verus!
