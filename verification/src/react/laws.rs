//! What holds of every batch, stated over the model of a reactor.

use super::lemmas::{
    lemma_batch, lemma_batch_idle, lemma_balanced_unique, lemma_heard_absent,
};
use super::model::{
    balanced, batch, heard, net_ok, registered, told, Firing, Wiring,
};
use vstd::prelude::*;

verus! {

/// Consistency: when an input of a balanced graph is set, the batch ends
/// with every compute cell holding the value of its function at the
/// values of its dependencies, the input holding the new value, and
/// every other input what it held.
pub proof fn law_consistency<T, F: Fn(&[T]) -> T>(
    net: Seq<Wiring<F>>,
    owners: Seq<usize>,
    vals: Seq<T>,
    a: int,
    v: T,
)
    requires
        net_ok::<T, F>(net, owners),
        vals.len() == net.len(),
        0 <= a < net.len(),
        net[a].func is None,
        balanced(net, vals),
    ensures
        balanced(net, batch(net, vals, a, v).store.vals),
        batch(net, vals, a, v).store.vals.len() == net.len(),
        batch(net, vals, a, v).store.vals[a] == v,
        forall|x: int|
            0 <= x < net.len() && x != a && (#[trigger] net[x]).func is None ==> batch(
                net,
                vals,
                a,
                v,
            ).store.vals[x] == vals[x],
{
    lemma_batch(net, owners, vals, a, v);
}

/// Callbacks fire once if and only if the value changed: in a batch,
/// each callback registered on a cell is invoked exactly once, with the
/// value that the cell holds after the batch, if that differs from the
/// value it held before, and not at all if it does not; and no other
/// callback is invoked.
pub proof fn law_fires_once_iff_changed<T, F: Fn(&[T]) -> T>(
    net: Seq<Wiring<F>>,
    owners: Seq<usize>,
    vals: Seq<T>,
    a: int,
    v: T,
)
    requires
        net_ok::<T, F>(net, owners),
        vals.len() == net.len(),
        0 <= a < net.len(),
        net[a].func is None,
        balanced(net, vals),
    ensures
        told(net, owners, vals, batch(net, vals, a, v).store.vals, batch(net, vals, a, v).fired),
{
    lemma_batch(net, owners, vals, a, v);
}

/// Setting an input to the value it holds changes no value and invokes
/// no callback.
pub proof fn law_idle_batch<T, F: Fn(&[T]) -> T>(
    net: Seq<Wiring<F>>,
    owners: Seq<usize>,
    vals: Seq<T>,
    a: int,
)
    requires
        net_ok::<T, F>(net, owners),
        vals.len() == net.len(),
        0 <= a < net.len(),
        net[a].func is None,
        balanced(net, vals),
    ensures
        batch(net, vals, a, vals[a]).store.vals == vals,
        batch(net, vals, a, vals[a]).fired == Seq::<Firing<T>>::empty(),
{
    lemma_batch_idle(net, owners, vals, a, vals[a]);
}

/// The values of the inputs determine the values of all cells: two
/// balanced valuations of one graph that agree on the inputs agree
/// everywhere.
pub proof fn law_inputs_determine_values<T, F: Fn(&[T]) -> T>(
    net: Seq<Wiring<F>>,
    owners: Seq<usize>,
    v1: Seq<T>,
    v2: Seq<T>,
)
    requires
        net_ok::<T, F>(net, owners),
        v1.len() == net.len(),
        v2.len() == net.len(),
        balanced(net, v1),
        balanced(net, v2),
        forall|i: int| 0 <= i < net.len() && (#[trigger] net[i]).func is None ==> v1[i] == v2[i],
    ensures
        v1 == v2,
{
    assert forall|x: int| 0 <= x < net.len() implies v1[x] == v2[x] by {
        lemma_balanced_unique(net, owners, v1, v2, x);
    }
    assert(v1 =~= v2);
}

/// A callback that is registered on no cell is not invoked: whatever a
/// stretch of a batch tells, it tells to registered callbacks only.
pub proof fn law_unregistered_is_silent<T, F>(
    net: Seq<Wiring<F>>,
    owners: Seq<usize>,
    before: Seq<T>,
    after: Seq<T>,
    fired: Seq<Firing<T>>,
    cb: usize,
)
    requires
        told(net, owners, before, after, fired),
        !registered(net, owners, cb),
    ensures
        heard(fired, cb) == Seq::<T>::empty(),
{
    lemma_heard_absent(fired, cb);
}

} // verus!
