//! Hashing many files at once: how many workers to start, and how their
//! results, which arrive in any order, are handed on in the order of the jobs.

use std::collections::HashMap;
use vstd::prelude::*;

verus! {

broadcast use vstd::std_specs::hash::group_hash_axioms;

/// The number of workers that `worker_count` starts.
pub open spec fn workers(requested: Option<usize>, processors: usize, jobs: usize) -> usize {
    let wanted = match requested {
        Some(n) => n,
        None => processors,
    };
    if wanted < jobs {
        wanted
    } else {
        jobs
    }
}

/// The number of workers to start for `jobs` jobs: as many as were asked for,
/// or as there are processors where none were asked for, but no more than
/// there are jobs.
pub fn worker_count(requested: Option<usize>, processors: usize, jobs: usize) -> (count: usize)
    ensures
        count == workers(requested, processors, jobs),
{
    let wanted = match requested {
        Some(n) => n,
        None => processors,
    };
    if wanted < jobs {
        wanted
    } else {
        jobs
    }
}

/// What a [`Reorder`] holds: the index that is handed on next, and the
/// results that arrived before their turn.
pub struct ReorderView<T> {
    pub next: nat,
    pub held: Map<usize, T>,
}

/// The number of results that `held` has in a row from index `from` on.
pub open spec fn run_length<T>(held: Map<usize, T>, from: nat) -> nat
    decreases usize::MAX + 1 - from,
{
    if from <= usize::MAX && held.contains_key(from as usize) {
        1 + run_length(held, from + 1)
    } else {
        0
    }
}

impl<T> ReorderView<T> {
    /// Nothing has arrived, and index 0 comes first.
    pub open spec fn new() -> Self {
        ReorderView { next: 0, held: Map::empty() }
    }

    /// The results that are handed on when `item` arrives with `index`: those
    /// held in a row from the next index on, `item` counted among the held.
    pub open spec fn released(self, index: usize, item: T) -> Seq<T> {
        let held = self.held.insert(index, item);
        Seq::new(run_length(held, self.next), |i: int| held[(self.next + i) as usize])
    }

    /// What is held once `item` has arrived with `index` and the results in
    /// turn have been handed on.
    pub open spec fn accept(self, index: usize, item: T) -> Self {
        let held = self.held.insert(index, item);
        let n = run_length(held, self.next);
        ReorderView {
            next: self.next + n,
            held: held.remove_keys(Set::new(|k: usize| self.next <= k < self.next + n)),
        }
    }

    /// What is held, and all that has been handed on, in order, once
    /// `arrivals` have been accepted one after the other; each arrival is an
    /// index and its result.
    pub open spec fn accept_all(self, arrivals: Seq<(usize, T)>) -> (Self, Seq<T>)
        decreases arrivals.len(),
    {
        if arrivals.len() == 0 {
            (self, Seq::empty())
        } else {
            let (before, out) = self.accept_all(arrivals.drop_last());
            let (index, item) = arrivals.last();
            (before.accept(index, item), out + before.released(index, item))
        }
    }
}

/// The arrivals carry each of the indices 0, 1, ... below their number
/// exactly once.
pub open spec fn is_permutation<T>(arrivals: Seq<(usize, T)>) -> bool {
    &&& forall|i: int| 0 <= i < arrivals.len() ==> (#[trigger] arrivals[i]).0 < arrivals.len()
    &&& forall|i: int, j: int|
        0 <= i < j < arrivals.len() ==> (#[trigger] arrivals[i]).0 != (#[trigger] arrivals[j]).0
}

/// Collects results that carry an index and hands them on by rising index,
/// each as soon as all before it have been handed on.
pub struct Reorder<T> {
    /// `None` once the result with the largest index there is has been handed
    /// on.
    next_idx: Option<usize>,
    out_of_order: HashMap<usize, T>,
}

impl<T> View for Reorder<T> {
    type V = ReorderView<T>;

    closed spec fn view(&self) -> ReorderView<T> {
        ReorderView {
            next: match self.next_idx {
                Some(n) => n as nat,
                None => (usize::MAX + 1) as nat,
            },
            held: self.out_of_order@,
        }
    }
}

impl<T> Reorder<T> {
    /// A collector that holds nothing and waits for the result of job 0.
    pub fn new() -> (reorder: Self)
        ensures
            reorder@ == ReorderView::<T>::new(),
    {
        Reorder { next_idx: Some(0), out_of_order: HashMap::new() }
    }

    /// Takes the result `item` of the job `index` and returns the results
    /// whose turn has come, in the order of their indices.
    pub fn accept(&mut self, index: usize, item: T) -> (ready: Vec<T>)
        ensures
            ready@ == old(self)@.released(index, item),
            final(self)@ == old(self)@.accept(index, item),
    {
        self.out_of_order.insert(index, item);
        let ghost held = self.out_of_order@;
        let ghost first = self@.next;
        let mut ready: Vec<T> = Vec::new();
        loop
            invariant
                self@.next == first + ready@.len(),
                self@.held == held.remove_keys(Set::new(|k: usize| first <= k < self@.next)),
                run_length(held, first) == ready@.len() + run_length(held, self@.next),
                forall|i: int|
                    0 <= i < ready@.len() ==> ready@[i] == held[(first + i) as usize],
            ensures
                run_length(held, self@.next) == 0,
            decreases usize::MAX + 1 - self@.next,
        {
            let n = match self.next_idx {
                Some(n) => n,
                None => {
                    break ;
                },
            };
            match self.out_of_order.remove(&n) {
                Some(result) => {
                    ready.push(result);
                    self.next_idx = n.checked_add(1);
                },
                None => {
                    break ;
                },
            }
        }
        ready
    }
}

/// One of the first `m` arrivals carries the index `k`.
spec fn has_arrived<T>(arrivals: Seq<(usize, T)>, m: int, k: int) -> bool {
    exists|i: int| 0 <= i < m && (#[trigger] arrivals[i]).0 == k
}

/// The arrival is where it belongs: handed on at the place of its index, or
/// held for later.
spec fn placed<T>(arrival: (usize, T), st: ReorderView<T>, out: Seq<T>) -> bool {
    if arrival.0 < st.next {
        out[arrival.0 as int] == arrival.1
    } else {
        &&& arrival.0 != st.next
        &&& st.held.contains_key(arrival.0)
        &&& st.held[arrival.0] == arrival.1
    }
}

/// After the first `m` arrivals: what was handed on are the results below
/// `st.next`, each at the place of its index, and the others are held.
spec fn settled<T>(arrivals: Seq<(usize, T)>, m: int, st: ReorderView<T>, out: Seq<T>) -> bool {
    &&& out.len() == st.next
    &&& forall|i: int| 0 <= i < m ==> placed(#[trigger] arrivals[i], st, out)
    &&& forall|k: int| 0 <= k < st.next ==> #[trigger] has_arrived(arrivals, m, k)
    &&& forall|k: usize| #[trigger]
        st.held.contains_key(k) ==> k > st.next && has_arrived(arrivals, m, k as int)
}

/// A run of held results ends at the first index that is not held.
proof fn lemma_run_length<T>(held: Map<usize, T>, from: nat)
    requires
        from <= usize::MAX + 1,
    ensures
        from + run_length(held, from) <= usize::MAX + 1,
        forall|k: usize|
            from <= k < from + run_length(held, from) ==> #[trigger] held.contains_key(k),
        from + run_length(held, from) <= usize::MAX ==> !held.contains_key(
            (from + run_length(held, from)) as usize,
        ),
    decreases usize::MAX + 1 - from,
{
    if from <= usize::MAX && held.contains_key(from as usize) {
        lemma_run_length(held, from + 1);
    }
}

/// One more arrival leaves everything settled.
proof fn lemma_settled_step<T>(
    arrivals: Seq<(usize, T)>,
    m: int,
    st: ReorderView<T>,
    out: Seq<T>,
)
    requires
        is_permutation(arrivals),
        0 <= m < arrivals.len(),
        settled(arrivals, m, st, out),
    ensures
        settled(
            arrivals,
            m + 1,
            st.accept(arrivals[m].0, arrivals[m].1),
            out + st.released(arrivals[m].0, arrivals[m].1),
        ),
{
    let (index, item) = arrivals[m];
    let held = st.held.insert(index, item);
    let after = st.accept(index, item);
    let all = out + st.released(index, item);
    // The index is new, so it is not below `st.next`.
    assert(!has_arrived(arrivals, m, index as int));
    lemma_run_length(held, st.next);
    assert forall|i: int| 0 <= i < m + 1 implies placed(#[trigger] arrivals[i], after, all) by {}
    assert forall|k: int| 0 <= k < after.next implies #[trigger] has_arrived(
        arrivals,
        m + 1,
        k,
    ) by {
        if k < st.next {
            assert(has_arrived(arrivals, m, k));
            let i = choose|i: int| 0 <= i < m && (#[trigger] arrivals[i]).0 == k;
        } else {
            assert(held.contains_key(k as usize));
            if k != index {
                let i = choose|i: int| 0 <= i < m && (#[trigger] arrivals[i]).0 == k;
            }
        }
    }
    assert forall|k: usize| #[trigger] after.held.contains_key(k) implies k > after.next
        && has_arrived(arrivals, m + 1, k as int) by {
        if k != index {
            let i = choose|i: int| 0 <= i < m && (#[trigger] arrivals[i]).0 == k;
        }
    }
}

/// After any number of the arrivals everything is settled.
proof fn lemma_settled<T>(arrivals: Seq<(usize, T)>, m: int)
    requires
        is_permutation(arrivals),
        0 <= m <= arrivals.len(),
    ensures
        ({
            let (st, out) = ReorderView::<T>::new().accept_all(arrivals.take(m));
            settled(arrivals, m, st, out)
        }),
    decreases m,
{
    if m > 0 {
        lemma_settled(arrivals, m - 1);
        assert(arrivals.take(m).drop_last() =~= arrivals.take(m - 1));
        let (st, out) = ReorderView::<T>::new().accept_all(arrivals.take(m - 1));
        lemma_settled_step(arrivals, m - 1, st, out);
    }
}

/// The indices that the first `m` arrivals carry.
spec fn arrived<T>(arrivals: Seq<(usize, T)>, m: int) -> Set<int> {
    Set::new(|k: int| has_arrived(arrivals, m, k))
}

/// Arrivals with different indices carry as many indices as there are
/// arrivals.
proof fn lemma_arrived_count<T>(arrivals: Seq<(usize, T)>, m: int)
    requires
        is_permutation(arrivals),
        0 <= m <= arrivals.len(),
    ensures
        arrived(arrivals, m).finite(),
        arrived(arrivals, m).len() == m,
    decreases m,
{
    if m == 0 {
        assert(arrived(arrivals, m) =~= Set::<int>::empty());
    } else {
        lemma_arrived_count(arrivals, m - 1);
        let k = arrivals[m - 1].0 as int;
        assert forall|j: int| arrived(arrivals, m).contains(j) <==> arrived(
            arrivals,
            m - 1,
        ).insert(k).contains(j) by {
            if has_arrived(arrivals, m, j) && j != k {
                let i = choose|i: int| 0 <= i < m && (#[trigger] arrivals[i]).0 == j;
            }
            if has_arrived(arrivals, m - 1, j) {
                let i = choose|i: int| 0 <= i < m - 1 && (#[trigger] arrivals[i]).0 == j;
            }
        }
        assert(arrived(arrivals, m) =~= arrived(arrivals, m - 1).insert(k));
    }
}

/// Results of jobs 0, 1, ... that arrive in any order, each once, are handed
/// on in the order of their indices: the result of job `k` at place `k`, none
/// left out, none twice, and none still held at the end.
pub proof fn lemma_handed_on_in_order<T>(arrivals: Seq<(usize, T)>)
    requires
        is_permutation(arrivals),
    ensures
        ({
            let (end, out) = ReorderView::<T>::new().accept_all(arrivals);
            &&& out.len() == arrivals.len()
            &&& forall|i: int|
                0 <= i < arrivals.len() ==> out[(#[trigger] arrivals[i]).0 as int] == arrivals[i].1
            &&& end.next == arrivals.len()
            &&& end.held == Map::<usize, T>::empty()
        }),
{
    let count = arrivals.len() as int;
    let (end, out) = ReorderView::<T>::new().accept_all(arrivals);
    assert(arrivals.take(count) =~= arrivals);
    lemma_settled(arrivals, count);
    // As many different indices have arrived as there are below `count`, and
    // all of them are below `count`: so each index below `count` has arrived.
    lemma_arrived_count(arrivals, count);
    vstd::set_lib::lemma_int_range(0, count);
    let all = vstd::set_lib::set_int_range(0, count);
    assert(arrived(arrivals, count).subset_of(all)) by {
        assert forall|k: int| arrived(arrivals, count).contains(k) implies all.contains(k) by {
            let i = choose|i: int| 0 <= i < count && (#[trigger] arrivals[i]).0 == k;
        }
    }
    vstd::set_lib::lemma_subset_equality(arrived(arrivals, count), all);
    // The next index has not arrived, and every index before it has.
    if end.next < count {
        assert(all.contains(end.next as int));
        let i = choose|i: int| 0 <= i < count && (#[trigger] arrivals[i]).0 == end.next;
    }
    if end.next > count {
        assert(has_arrived(arrivals, count, count));
        let i = choose|i: int| 0 <= i < count && (#[trigger] arrivals[i]).0 == count;
    }
    assert forall|i: int| 0 <= i < arrivals.len() implies out[(#[trigger] arrivals[i]).0 as int]
        == arrivals[i].1 by {}
    assert(end.held =~= Map::<usize, T>::empty()) by {
        assert forall|k: usize| !end.held.contains_key(k) by {
            if end.held.contains_key(k) {
                let i = choose|i: int| 0 <= i < count && (#[trigger] arrivals[i]).0 == k;
            }
        }
    }
}

} // verus!
