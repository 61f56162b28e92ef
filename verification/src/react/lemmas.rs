//! Why a batch leaves the graph consistent and fires each callback once
//! if and only if its cell changed.
//!
//! The argument follows the recursion of [`resolve`]. While cells are
//! being resolved, every resolved compute cell is consistent with its
//! dependencies, and every stale cell either still waits for a stale
//! dependency or is yet to be visited by a frame of the traversal. When
//! the last frame returns nothing is left to visit, so the stale cell of
//! least slot would have to wait for a stale cell of lesser slot: there
//! is none.

use super::model::{
    announce, balanced, batch, blocked, dep_vals, downstream, echo, eval, feeds, grown, heard,
        input_wiring,
    marked, net_ok, produces, pure_on, reads, registered, resolve, resolve_subs, settled,
        with_callbacks,
    told, Firing, Store, Wiring,
};
use vstd::prelude::*;

verus! {

/// The store has one value and one flag per cell.
pub open spec fn store_ok<T, F>(net: Seq<Wiring<F>>, st: Store<T>) -> bool {
    st.vals.len() == net.len() && st.fresh.len() == net.len()
}

/// Input cells are resolved, and every resolved compute cell has only
/// resolved dependencies and holds the value of its function at them.
pub open spec fn coherent<T, F: Fn(&[T]) -> T>(net: Seq<Wiring<F>>, st: Store<T>) -> bool {
    &&& forall|c: int| 0 <= c < net.len() && (#[trigger] net[c]).func is None ==> st.fresh[c]
    &&& forall|c: int|
        0 <= c < net.len() && #[trigger] st.fresh[c] && net[c].func is Some ==> !blocked(
            net,
            st,
            c,
        ) && st.vals[c] == eval(net[c].func.unwrap(), dep_vals(net, st.vals, c))
}

/// Cell `x` is among the subscribers of `c` from position `k` on.
pub open spec fn pending<F>(net: Seq<Wiring<F>>, c: int, k: int, x: int) -> bool {
    exists|j: int| k <= j < net[c].subs.len() && #[trigger] net[c].subs[j] == x
}

/// Every stale cell waits for a stale dependency or is in `q`.
pub open spec fn covered<T, F>(net: Seq<Wiring<F>>, st: Store<T>, q: Set<int>) -> bool {
    forall|x: int|
        0 <= x < net.len() && !#[trigger] st.fresh[x] ==> blocked(net, st, x) || q.contains(x)
}

/// From `a` to `b` resolved cells stayed resolved and kept their value,
/// and every cell whose value differs is resolved in `b`.
pub open spec fn carried<T>(a: Store<T>, b: Store<T>) -> bool {
    forall|x: int| 0 <= x < a.fresh.len() ==> #[trigger] carried_at(a, b, x)
}

/// What [`carried`] says of the single cell `x`.
pub open spec fn carried_at<T>(a: Store<T>, b: Store<T>, x: int) -> bool {
    &&& a.fresh[x] ==> b.fresh[x] && b.vals[x] == a.vals[x]
    &&& !b.fresh[x] ==> b.vals[x] == a.vals[x]
}

/// What a callback heard in two logs, one after the other, is what it
/// heard in the first followed by what it heard in the second.
pub proof fn lemma_heard_add<T>(a: Seq<Firing<T>>, b: Seq<Firing<T>>, cb: usize)
    ensures
        heard(a + b, cb) == heard(a, cb) + heard(b, cb),
    decreases b.len(),
{
    if b.len() == 0 {
        assert(a + b =~= a);
        assert(heard(a, cb) + heard(b, cb) =~= heard(a, cb));
    } else {
        assert((a + b).drop_last() =~= a + b.drop_last());
        assert((a + b).last() == b.last());
        lemma_heard_add(a, b.drop_last(), cb);
        if b.last().callback == cb {
            assert(heard(a, cb) + heard(b.drop_last(), cb).push(b.last().value) =~= (heard(a, cb)
                + heard(b.drop_last(), cb)).push(b.last().value));
        }
    }
}

/// A callback that does not occur in a log has heard nothing.
pub proof fn lemma_heard_absent<T>(log: Seq<Firing<T>>, cb: usize)
    requires
        forall|i: int| 0 <= i < log.len() ==> (#[trigger] log[i]).callback != cb,
    ensures
        heard(log, cb) == Seq::<T>::empty(),
    decreases log.len(),
{
    if log.len() > 0 {
        assert(log.last() == log[log.len() - 1]);
        assert forall|i: int| 0 <= i < log.drop_last().len() implies (
        #[trigger] log.drop_last()[i]).callback != cb by {
            assert(log.drop_last()[i] == log[i]);
        }
        lemma_heard_absent(log.drop_last(), cb);
    }
}

/// A callback that occurs in a log has heard something.
pub proof fn lemma_heard_present<T>(log: Seq<Firing<T>>, cb: usize, i: int)
    requires
        0 <= i < log.len(),
        log[i].callback == cb,
    ensures
        heard(log, cb).len() > 0,
    decreases log.len(),
{
    if i < log.len() - 1 {
        assert(log.drop_last()[i] == log[i]);
        lemma_heard_present(log.drop_last(), cb, i);
    }
}

/// When a cell announces a value, each of its callbacks hears it once
/// and no other callback hears anything.
pub proof fn lemma_heard_announce<T>(callbacks: Seq<usize>, v: T, cb: usize)
    requires
        callbacks.no_duplicates(),
    ensures
        heard(announce(callbacks, v), cb) == if callbacks.contains(cb) {
            seq![v]
        } else {
            Seq::empty()
        },
    decreases callbacks.len(),
{
    let log = announce(callbacks, v);
    if callbacks.len() == 0 {
    } else {
        let init = callbacks.drop_last();
        assert(log.drop_last() =~= announce(init, v));
        lemma_heard_announce(init, v, cb);
        if callbacks.last() == cb {
            assert(callbacks[callbacks.len() - 1] == cb);
            if init.contains(cb) {
                let i = choose|i: int| 0 <= i < init.len() && init[i] == cb;
                assert(callbacks[i] == cb);
            }
            assert(heard(log, cb) =~= seq![v]);
        } else {
            if callbacks.contains(cb) {
                let i = choose|i: int| 0 <= i < callbacks.len() && callbacks[i] == cb;
                assert(init[i] == cb);
            }
            if init.contains(cb) {
                let i = choose|i: int| 0 <= i < init.len() && init[i] == cb;
                assert(callbacks[i] == cb);
            }
        }
    }
}

/// Two stretches of a batch, one after the other, tell the callbacks what
/// the whole tells them.
pub proof fn lemma_told_then<T, F>(
    net: Seq<Wiring<F>>,
    owners: Seq<usize>,
    a: Store<T>,
    b: Store<T>,
    c: Store<T>,
    first: Seq<Firing<T>>,
    second: Seq<Firing<T>>,
)
    requires
        a.fresh.len() == net.len(),
        b.fresh.len() == net.len(),
        carried(a, b),
        carried(b, c),
        told(net, owners, a.vals, b.vals, first),
        told(net, owners, b.vals, c.vals, second),
    ensures
        carried(a, c),
        told(net, owners, a.vals, c.vals, first + second),
{
    assert forall|x: int| 0 <= x < a.fresh.len() implies #[trigger] carried_at(a, c, x) by {
        assert(carried_at(a, b, x) && carried_at(b, c, x));
    }
    let all = first + second;
    assert forall|i: int| 0 <= i < all.len() implies registered(
        net,
        owners,
        (#[trigger] all[i]).callback,
    ) by {
        if i < first.len() {
            assert(all[i] == first[i]);
        } else {
            assert(all[i] == second[i - first.len()]);
        }
    }
    assert forall|x: int, j: int| 0 <= x < net.len() && 0 <= j < net[x].callbacks.len()
        implies heard(
        all,
        #[trigger] net[x].callbacks[j],
    ) == if c.vals[x] != a.vals[x] {
        seq![c.vals[x]]
    } else {
        Seq::empty()
    } by {
        let cb = net[x].callbacks[j];
        lemma_heard_add(first, second, cb);
        assert(carried_at(a, b, x) && carried_at(b, c, x));
        if b.vals[x] != a.vals[x] {
            assert(b.fresh[x]);
            assert(heard(first, cb) + heard(second, cb) =~= seq![c.vals[x]]);
        } else {
            assert(heard(first, cb) + heard(second, cb) =~= heard(second, cb));
        }
    }
}

/// The values read by cell `x` are the same in two stores that agree on
/// every dependency of `x`.
pub proof fn lemma_dep_vals_agree<T, F>(net: Seq<Wiring<F>>, v1: Seq<T>, v2: Seq<T>, x: int)
    requires
        forall|k: int|
            0 <= k < net[x].deps.len() ==> v1[#[trigger] net[x].deps[k] as int]
                == v2[net[x].deps[k] as int],
    ensures
        dep_vals(net, v1, x) == dep_vals(net, v2, x),
{
    assert(dep_vals(net, v1, x) =~= dep_vals(net, v2, x));
}

/// Resolving one cell keeps the store coherent, leaves every stale cell
/// accounted for, and tells the callbacks what changed.
pub proof fn lemma_resolve<T, F: Fn(&[T]) -> T>(
    net: Seq<Wiring<F>>,
    owners: Seq<usize>,
    st: Store<T>,
    c: int,
    q: Set<int>,
)
    requires
        net_ok::<T, F>(net, owners),
        store_ok(net, st),
        0 <= c < net.len(),
        net[c].func is Some,
        coherent(net, st),
        covered(net, st, q.insert(c)),
    ensures
        store_ok(net, resolve(net, st, c).store),
        coherent(net, resolve(net, st, c).store),
        covered(net, resolve(net, st, c).store, q),
        carried(st, resolve(net, st, c).store),
        told(net, owners, st.vals, resolve(net, st, c).store.vals, resolve(net, st, c).fired),
    decreases net.len() - c, 1int, 0int,
{
    let r = resolve(net, st, c);
    if blocked(net, st, c) {
        assert(r.store == st);
        assert(r.fired =~= Seq::<Firing<T>>::empty());
        assert forall|x: int| 0 <= x < st.fresh.len() implies #[trigger] carried_at(st, st, x) by {}
    } else {
        let v = eval(net[c].func.unwrap(), dep_vals(net, st.vals, c));
        let own = if v != st.vals[c] {
            announce(net[c].callbacks, v)
        } else {
            Seq::<Firing<T>>::empty()
        };
        let st1 = Store { vals: st.vals.update(c, v), fresh: st.fresh.update(c, true) };
        let rest = resolve_subs(net, st1, c, 0);
        assert(r.store == rest.store);
        assert(r.fired == own + rest.fired);
        // A cell that was resolved already is recomputed to the value it holds.
        assert(st.fresh[c] ==> v == st.vals[c]);
        assert forall|x: int| 0 <= x < st.fresh.len() implies #[trigger] carried_at(st, st1, x)
            by {}
        // Resolved cells read what they read before.
        assert forall|x: int|
            0 <= x < net.len() && #[trigger] st1.fresh[x] && net[x].func is Some implies !blocked(
            net,
            st1,
            x,
        ) && st1.vals[x] == eval(net[x].func.unwrap(), dep_vals(net, st1.vals, x)) by {
            assert forall|k: int| 0 <= k < net[x].deps.len()
                implies st1.fresh[#[trigger] net[x].deps[k] as int]
                && st1.vals[net[x].deps[k] as int] == st.vals[net[x].deps[k] as int] by {
                let d = net[x].deps[k] as int;
                if x == c {
                    assert(st.fresh[d]);
                } else {
                    assert(st.fresh[x]);
                    assert(!blocked(net, st, x));
                    assert(st.fresh[d]);
                }
            }
            lemma_dep_vals_agree(net, st1.vals, st.vals, x);
            if x != c {
                assert(st.fresh[x]);
            }
        }
        assert(coherent(net, st1)) by {
            assert forall|x: int| 0 <= x < net.len() && (#[trigger] net[x]).func is None
                implies st1.fresh[x] by {
                assert(st.fresh[x]);
            }
        }
        let q1 = Set::new(|x: int| q.contains(x) || pending(net, c, 0, x));
        assert forall|x: int| 0 <= x < net.len() && !#[trigger] st1.fresh[x] implies blocked(
            net,
            st1,
            x,
        ) || q.contains(x) || pending(net, c, 0, x) by {
            assert(!st.fresh[x] && x != c);
            if !q.contains(x) {
                assert(blocked(net, st, x));
                let k = choose|k: int| 0 <= k < net[x].deps.len()
                    && !st.fresh[#[trigger] net[x].deps[k] as int];
                if net[x].deps[k] == c {
                    assert(feeds(net, c, x));
                    let j = choose|j: int| 0 <= j < net[c].subs.len() && #[trigger] net[c].subs[j]
                        == x;
                    assert(pending(net, c, 0, x));
                } else {
                    assert(!st1.fresh[net[x].deps[k] as int]);
                    assert(blocked(net, st1, x));
                }
            }
        }
        lemma_resolve_subs(net, owners, st1, c, 0, q);
        // What the cell itself tells its callbacks.
        assert(told(net, owners, st.vals, st1.vals, own)) by {
            assert forall|i: int| 0 <= i < own.len() implies registered(
                net,
                owners,
                (#[trigger] own[i]).callback,
            ) by {
                assert(own[i].callback == net[c].callbacks[i]);
            }
            assert forall|x: int, j: int| 0 <= x < net.len() && 0 <= j < net[x].callbacks.len()
                implies heard(
                own,
                #[trigger] net[x].callbacks[j],
            ) == if st1.vals[x] != st.vals[x] {
                seq![st1.vals[x]]
            } else {
                Seq::empty()
            } by {
                let cb = net[x].callbacks[j];
                if x == c {
                    if v != st.vals[c] {
                        lemma_heard_announce(net[c].callbacks, v, cb);
                    }
                } else {
                    if net[c].callbacks.contains(cb) {
                        let i = choose|i: int| 0 <= i < net[c].callbacks.len()
                            && net[c].callbacks[i] == cb;
                        assert(owners[net[c].callbacks[i] as int] == c);
                        assert(owners[net[x].callbacks[j] as int] == x);
                    }
                    if v != st.vals[c] {
                        lemma_heard_announce(net[c].callbacks, v, cb);
                    }
                }
            }
        }
        lemma_told_then(net, owners, st, st1, rest.store, own, rest.fired);
    }
}

/// Resolving the subscribers of `c` from position `k` on keeps the store
/// coherent, accounts for every stale cell without those subscribers, and
/// tells the callbacks what changed.
pub proof fn lemma_resolve_subs<T, F: Fn(&[T]) -> T>(
    net: Seq<Wiring<F>>,
    owners: Seq<usize>,
    st: Store<T>,
    c: int,
    k: int,
    q: Set<int>,
)
    requires
        net_ok::<T, F>(net, owners),
        store_ok(net, st),
        0 <= c < net.len(),
        0 <= k <= net[c].subs.len(),
        coherent(net, st),
        forall|x: int|
            0 <= x < net.len() && !#[trigger] st.fresh[x] ==> blocked(net, st, x) || q.contains(x)
                || pending(net, c, k, x),
    ensures
        store_ok(net, resolve_subs(net, st, c, k).store),
        coherent(net, resolve_subs(net, st, c, k).store),
        covered(net, resolve_subs(net, st, c, k).store, q),
        carried(st, resolve_subs(net, st, c, k).store),
        told(
            net,
            owners,
            st.vals,
            resolve_subs(net, st, c, k).store.vals,
            resolve_subs(net, st, c, k).fired,
        ),
    decreases net.len() - c, 0int, net[c].subs.len() - k,
{
    let r = resolve_subs(net, st, c, k);
    if k >= net[c].subs.len() {
        assert(r.store == st);
        assert(r.fired =~= Seq::<Firing<T>>::empty());
        assert forall|x: int| 0 <= x < st.fresh.len() implies #[trigger] carried_at(st, st, x) by {}
        assert forall|x: int| 0 <= x < net.len() && !#[trigger] st.fresh[x] implies blocked(net,
            st, x)
            || q.contains(x) by {
            assert(!pending(net, c, k, x));
        }
    } else {
        let s = net[c].subs[k] as int;
        assert(c < s < net.len() && net[s].func is Some);
        let first = resolve(net, st, s);
        let rest = resolve_subs(net, first.store, c, k + 1);
        assert(r.store == rest.store);
        assert(r.fired == first.fired + rest.fired);
        let q1 = Set::new(|x: int| q.contains(x) || pending(net, c, k + 1, x));
        assert forall|x: int| 0 <= x < net.len() && !#[trigger] st.fresh[x] implies blocked(net,
            st, x)
            || q1.insert(s).contains(x) by {
            if !blocked(net, st, x) && !q.contains(x) {
                assert(pending(net, c, k, x));
                let j = choose|j: int| k <= j < net[c].subs.len() && #[trigger] net[c].subs[j] == x;
                if j != k {
                    assert(pending(net, c, k + 1, x));
                }
            }
        }
        lemma_resolve(net, owners, st, s, q1);
        assert forall|x: int| 0 <= x < net.len() && !#[trigger] first.store.fresh[x]
            implies blocked(
            net,
            first.store,
            x,
        ) || q.contains(x) || pending(net, c, k + 1, x) by {
            assert(blocked(net, first.store, x) || q1.contains(x));
        }
        lemma_resolve_subs(net, owners, first.store, c, k + 1, q);
        lemma_told_then(net, owners, st, first.store, rest.store, first.fired, rest.fired);
    }
}

/// With nothing left to visit, no cell is stale.
pub proof fn lemma_none_stale<T, F: Fn(&[T]) -> T>(
    net: Seq<Wiring<F>>,
    owners: Seq<usize>,
    st: Store<T>,
    x: int,
)
    requires
        net_ok::<T, F>(net, owners),
        covered(net, st, Set::empty()),
        0 <= x < net.len(),
    ensures
        st.fresh[x],
    decreases x,
{
    if !st.fresh[x] {
        assert(blocked(net, st, x));
        let k = choose|k: int| 0 <= k < net[x].deps.len()
            && !st.fresh[#[trigger] net[x].deps[k] as int];
        lemma_none_stale(net, owners, st, net[x].deps[k] as int);
    }
}

/// A whole batch ends with every cell resolved and consistent, the
/// inputs as they were set, and each callback told once of a change.
pub proof fn lemma_batch<T, F: Fn(&[T]) -> T>(
    net: Seq<Wiring<F>>,
    owners: Seq<usize>,
    vals: Seq<T>,
    a: int,
    v: T,
)
    requires
        net_ok::<T, F>(net, owners),
        vals.len() == net.len(),
        0 <= a < net.len(),
        net[a].func is None,
        balanced(net, vals),
    ensures
        store_ok(net, batch(net, vals, a, v).store),
        forall|x: int| 0 <= x < net.len() ==> #[trigger] batch(net, vals, a, v).store.fresh[x],
        balanced(net, batch(net, vals, a, v).store.vals),
        forall|x: int|
            0 <= x < net.len() && (#[trigger] net[x]).func is None ==> batch(net, vals, a,
                v).store.vals[x]
                == vals.update(a, v)[x],
        told(net, owners, vals, batch(net, vals, a, v).store.vals, batch(net, vals, a, v).fired),
{
    let st0 = marked(net, vals, a, v);
    let r = batch(net, vals, a, v);
    assert forall|x: int| 0 <= x < net.len() && (#[trigger] net[x]).func is None
        implies st0.fresh[x] by {
        assert(!downstream(net, a, x));
    }
    assert forall|x: int|
        0 <= x < net.len() && #[trigger] st0.fresh[x] && net[x].func is Some implies !blocked(net,
            st0, x)
        && st0.vals[x] == eval(net[x].func.unwrap(), dep_vals(net, st0.vals, x)) by {
        assert(!downstream(net, a, x));
        assert forall|k: int| 0 <= k < net[x].deps.len()
            implies st0.fresh[#[trigger] net[x].deps[k] as int]
            && st0.vals[net[x].deps[k] as int] == vals[net[x].deps[k] as int] by {
            assert(net[x].deps[k] < x);
        }
        lemma_dep_vals_agree(net, st0.vals, vals, x);
    }
    assert forall|x: int| 0 <= x < net.len() && !#[trigger] st0.fresh[x] implies blocked(net, st0,
        x)
        || Set::<int>::empty().contains(x) || pending(net, a, 0, x) by {
        assert(downstream(net, a, x));
        let k = choose|k: int|
            0 <= k < net[x].deps.len() && 0 <= (#[trigger] net[x].deps[k]) < x && (net[x].deps[k]
                == a
                || downstream(net, a, net[x].deps[k] as int));
        if net[x].deps[k] == a {
            assert(feeds(net, a, x));
            let j = choose|j: int| 0 <= j < net[a].subs.len() && #[trigger] net[a].subs[j] == x;
            assert(pending(net, a, 0, x));
        } else {
            assert(!st0.fresh[net[x].deps[k] as int]);
        }
    }
    lemma_resolve_subs(net, owners, st0, a, 0, Set::empty());
    assert forall|x: int| 0 <= x < net.len() implies #[trigger] r.store.fresh[x] by {
        lemma_none_stale(net, owners, r.store, x);
    }
    assert forall|x: int| 0 <= x < net.len() && (#[trigger] net[x]).func is None
        implies r.store.vals[x]
        == vals.update(a, v)[x] by {
        assert(carried_at(st0, r.store, x));
    }
    assert forall|x: int| 0 <= x < net.len() && (#[trigger] net[x]).func is Some
        implies r.store.vals[x]
        == eval(net[x].func.unwrap(), dep_vals(net, r.store.vals, x)) by {
        assert(r.store.fresh[x]);
    }
    assert forall|c: int, j: int| 0 <= c < net.len() && 0 <= j < net[c].callbacks.len()
        implies heard(
        r.fired,
        #[trigger] net[c].callbacks[j],
    ) == if r.store.vals[c] != vals[c] {
        seq![r.store.vals[c]]
    } else {
        Seq::empty()
    } by {
        assert(c != a);
    }
}

/// The inputs determine every value of a balanced graph.
pub proof fn lemma_balanced_unique<T, F: Fn(&[T]) -> T>(
    net: Seq<Wiring<F>>,
    owners: Seq<usize>,
    v1: Seq<T>,
    v2: Seq<T>,
    x: int,
)
    requires
        net_ok::<T, F>(net, owners),
        balanced(net, v1),
        balanced(net, v2),
        forall|i: int| 0 <= i < net.len() && (#[trigger] net[i]).func is None ==> v1[i] == v2[i],
        0 <= x < net.len(),
    ensures
        v1[x] == v2[x],
    decreases x,
{
    if net[x].func is Some {
        assert forall|k: int| 0 <= k < net[x].deps.len()
            implies v1[#[trigger] net[x].deps[k] as int]
            == v2[net[x].deps[k] as int] by {
            lemma_balanced_unique(net, owners, v1, v2, net[x].deps[k] as int);
        }
        lemma_dep_vals_agree(net, v1, v2, x);
    }
}

/// A batch that sets an input to the value it holds changes no value and
/// invokes no callback.
pub proof fn lemma_batch_idle<T, F: Fn(&[T]) -> T>(
    net: Seq<Wiring<F>>,
    owners: Seq<usize>,
    vals: Seq<T>,
    a: int,
    v: T,
)
    requires
        net_ok::<T, F>(net, owners),
        vals.len() == net.len(),
        0 <= a < net.len(),
        net[a].func is None,
        balanced(net, vals),
        vals[a] == v,
    ensures
        batch(net, vals, a, v).store.vals == vals,
        batch(net, vals, a, v).fired == Seq::<Firing<T>>::empty(),
{
    let r = batch(net, vals, a, v);
    lemma_batch(net, owners, vals, a, v);
    assert(vals.update(a, v) =~= vals);
    assert forall|x: int| 0 <= x < net.len() implies r.store.vals[x] == vals[x] by {
        lemma_balanced_unique(net, owners, r.store.vals, vals, x);
    }
    assert(r.store.vals =~= vals);
    if r.fired.len() > 0 {
        let cb = r.fired[0].callback;
        assert(registered(net, owners, cb));
        let c = owners[cb as int] as int;
        let j = choose|j: int| 0 <= j < net[c].callbacks.len() && net[c].callbacks[j] == cb;
        assert(heard(r.fired, net[c].callbacks[j]) == Seq::<T>::empty());
        lemma_heard_present(r.fired, cb, 0);
    }
    assert(r.fired =~= Seq::<Firing<T>>::empty());
}

/// Cell `x` is one of the first `k` subscribers of `c` or downstream of
/// one of them.
pub open spec fn below<F>(net: Seq<Wiring<F>>, c: int, k: int, x: int) -> bool {
    exists|j: int|
        0 <= j < k && j < net[c].subs.len() && ((#[trigger] net[c].subs[j]) == x || downstream(
            net,
            net[c].subs[j] as int,
            x,
        ))
}

/// A cell downstream of a reader of `c` is downstream of `c`.
pub proof fn lemma_downstream_via<T, F: Fn(&[T]) -> T>(
    net: Seq<Wiring<F>>,
    owners: Seq<usize>,
    c: int,
    s: int,
    x: int,
)
    requires
        net_ok::<T, F>(net, owners),
        0 <= s < net.len(),
        0 <= x < net.len(),
        reads(net, s, c),
        downstream(net, s, x),
    ensures
        downstream(net, c, x),
    decreases x,
{
    let k = choose|k: int|
        0 <= k < net[x].deps.len() && 0 <= (#[trigger] net[x].deps[k]) < x && (net[x].deps[k] == s
            || downstream(net, s, net[x].deps[k] as int));
    let d = net[x].deps[k] as int;
    if d == s {
        let i = choose|i: int| 0 <= i < net[s].deps.len() && #[trigger] net[s].deps[i] == c;
        assert(0 <= net[s].deps[i] < s);
        assert(downstream(net, c, s));
    } else {
        lemma_downstream_via(net, owners, c, s, d);
    }
    assert(downstream(net, c, d));
}

/// The cells downstream of `c` are its subscribers and what is
/// downstream of them.
pub proof fn lemma_downstream_step<T, F: Fn(&[T]) -> T>(
    net: Seq<Wiring<F>>,
    owners: Seq<usize>,
    c: int,
    x: int,
)
    requires
        net_ok::<T, F>(net, owners),
        0 <= c < net.len(),
        0 <= x < net.len(),
    ensures
        downstream(net, c, x) <==> below(net, c, net[c].subs.len() as int, x),
    decreases x,
{
    if downstream(net, c, x) {
        let k = choose|k: int|
            0 <= k < net[x].deps.len() && 0 <= (#[trigger] net[x].deps[k]) < x && (net[x].deps[k]
                == c
                || downstream(net, c, net[x].deps[k] as int));
        let d = net[x].deps[k] as int;
        if d == c {
            assert(feeds(net, c, x));
            let j = choose|j: int| 0 <= j < net[c].subs.len() && #[trigger] net[c].subs[j] == x;
            assert(below(net, c, net[c].subs.len() as int, x));
        } else {
            lemma_downstream_step(net, owners, c, d);
            let j = choose|j: int|
                0 <= j < net[c].subs.len() && j < net[c].subs.len() && ((#[trigger] net[c].subs[j])
                    == d
                    || downstream(net, net[c].subs[j] as int, d));
            assert(downstream(net, net[c].subs[j] as int, x));
            assert(below(net, c, net[c].subs.len() as int, x));
        }
    }
    if below(net, c, net[c].subs.len() as int, x) {
        let j = choose|j: int|
            0 <= j < net[c].subs.len() && j < net[c].subs.len() && ((#[trigger] net[c].subs[j]) == x
                || downstream(net, net[c].subs[j] as int, x));
        let s = net[c].subs[j] as int;
        assert(reads(net, s, c));
        if s == x {
            let i = choose|i: int| 0 <= i < net[x].deps.len() && #[trigger] net[x].deps[i] == c;
            assert(0 <= net[x].deps[i] < x);
            assert(downstream(net, c, x));
        } else {
            lemma_downstream_via(net, owners, c, s, x);
        }
    }
}

/// Every element of an echo is the new cell's slot, and an echo is empty
/// unless the cell occurs among the dependencies.
pub proof fn lemma_echo(deps: Seq<usize>, x: int, id: usize)
    ensures
        forall|j: int| 0 <= j < echo(deps, x, id).len() ==> #[trigger] echo(deps, x, id)[j] == id,
        echo(deps, x, id).len() > 0 <==> exists|k: int| 0 <= k < deps.len() && #[trigger] deps[k]
            == x,
    decreases deps.len(),
{
    if deps.len() > 0 {
        lemma_echo(deps.drop_last(), x, id);
        if exists|k: int| 0 <= k < deps.len() && #[trigger] deps[k] == x {
            let k = choose|k: int| 0 <= k < deps.len() && #[trigger] deps[k] == x;
            if k < deps.len() - 1 {
                assert(deps.drop_last()[k] == x);
            }
        }
        if exists|k: int| 0 <= k < deps.drop_last().len() && #[trigger] deps.drop_last()[k] == x {
            let k = choose|k: int| 0 <= k < deps.drop_last().len()
                && #[trigger] deps.drop_last()[k] == x;
            assert(deps[k] == x);
        }
        if deps.last() == x {
            assert(deps[deps.len() - 1] == x);
        }
    }
}

/// A new input cell leaves the wiring sound and the graph settled.
pub proof fn lemma_push_input<T, F: Fn(&[T]) -> T>(
    net: Seq<Wiring<F>>,
    owners: Seq<usize>,
    vals: Seq<T>,
    v: T,
)
    requires
        net_ok::<T, F>(net, owners),
        vals.len() == net.len(),
        settled(net, vals),
    ensures
        net_ok::<T, F>(net.push(input_wiring()), owners),
        settled(net.push(input_wiring()), vals.push(v)),
{
    let net2 = net.push(input_wiring::<F>());
    assert forall|c: int, k: int| 0 <= c < net2.len() && 0 <= k < net2[c].deps.len() implies (
    #[trigger] net2[c].deps[k]) < c && feeds(net2, net2[c].deps[k] as int, c) by {
        assert(feeds(net, net[c].deps[k] as int, c));
        let j = choose|j: int|
            0 <= j < net[net[c].deps[k] as int].subs.len()
                && #[trigger] net[net[c].deps[k] as int].subs[j]
                == c;
        assert(net2[net2[c].deps[k] as int].subs[j] == c);
    }
    assert forall|c: int, k: int| 0 <= c < net2.len() && 0 <= k < net2[c].subs.len() implies c < (
    #[trigger] net2[c].subs[k]) < net2.len() && net2[net2[c].subs[k] as int].func is Some && reads(
        net2,
        net2[c].subs[k] as int,
        c,
    ) by {
        let s = net[c].subs[k] as int;
        assert(reads(net, s, c));
        let i = choose|i: int| 0 <= i < net[s].deps.len() && #[trigger] net[s].deps[i] == c;
        assert(net2[s].deps[i] == c);
    }
    assert forall|c: int| 0 <= c < net2.len() && (#[trigger] net2[c]).func is Some implies produces(
        net2[c].func.unwrap(),
        dep_vals(net2, vals.push(v), c),
        vals.push(v)[c],
    ) by {
        assert(net[c].func is Some);
        assert forall|k: int| 0 <= k < net[c].deps.len()
            implies vals.push(v)[#[trigger] net[c].deps[k] as int]
            == vals[net[c].deps[k] as int] by {}
        assert(dep_vals(net2, vals.push(v), c) =~= dep_vals(net, vals, c));
    }
    assert forall|c: int| 0 <= c < net2.len() && (#[trigger] net2[c]).func is Some
        implies pure_on::<T, F>(
        net2[c].func.unwrap(),
        net2[c].deps.len(),
    ) by {
        assert(net[c].func is Some);
    }
    assert forall|c: int| 0 <= c < net2.len() implies (#[trigger]
        net2[c]).callbacks.no_duplicates() by {
        if c < net.len() {
            assert(net[c].callbacks.no_duplicates());
        }
    }
    assert forall|c: int| 0 <= c < net2.len() && (#[trigger] net2[c]).func is None
        implies net2[c].deps.len()
        == 0 && net2[c].callbacks.len() == 0 by {
        if c < net.len() {
            assert(net[c].func is None);
        }
    }
}

/// A new compute cell over existing cells leaves the wiring sound, and
/// the graph settled once it holds a value of its function.
pub proof fn lemma_grown<T, F: Fn(&[T]) -> T>(
    net: Seq<Wiring<F>>,
    owners: Seq<usize>,
    vals: Seq<T>,
    f: F,
    deps: Seq<usize>,
    v: T,
)
    requires
        net_ok::<T, F>(net, owners),
        vals.len() == net.len(),
        net.len() <= usize::MAX,
        settled(net, vals),
        pure_on::<T, F>(f, deps.len()),
        forall|k: int| 0 <= k < deps.len() ==> (#[trigger] deps[k]) < net.len(),
        produces(f, Seq::new(deps.len(), |k: int| vals[deps[k] as int]), v),
    ensures
        net_ok::<T, F>(grown(net, f, deps), owners),
        settled(grown(net, f, deps), vals.push(v)),
        v == eval(f, Seq::new(deps.len(), |k: int| vals[deps[k] as int])),
{
    let n = net.len() as int;
    let net2 = grown(net, f, deps);
    let vals2 = vals.push(v);
    lemma_produces_eval(f, Seq::new(deps.len(), |k: int| vals[deps[k] as int]), v);
    assert forall|c: int| 0 <= c < net2.len() && (#[trigger] net2[c]).func is None
        implies net2[c].deps.len()
        == 0 && net2[c].callbacks.len() == 0 by {
        assert(net[c].func is None);
    }
    assert forall|c: int| 0 <= c < net2.len() && (#[trigger] net2[c]).func is Some
        implies pure_on::<T, F>(
        net2[c].func.unwrap(),
        net2[c].deps.len(),
    ) by {
        if c < n {
            assert(net[c].func is Some);
        }
    }
    assert forall|c: int, k: int| 0 <= c < net2.len() && 0 <= k < net2[c].deps.len() implies (
    #[trigger] net2[c].deps[k]) < c && feeds(net2, net2[c].deps[k] as int, c) by {
        let d = net2[c].deps[k] as int;
        if c < n {
            assert(feeds(net, net[c].deps[k] as int, c));
            let j = choose|j: int| 0 <= j < net[d].subs.len() && #[trigger] net[d].subs[j] == c;
            assert(net2[d].subs[j] == c);
        } else {
            lemma_echo(deps, d, n as usize);
            assert(deps[k] == d);
            let e = echo(deps, d, n as usize);
            assert(e.len() > 0);
            assert(e[0] == n);
            assert(net2[d].subs[net[d].subs.len() as int] == e[0]);
        }
    }
    assert forall|c: int, k: int| 0 <= c < net2.len() && 0 <= k < net2[c].subs.len() implies c < (
    #[trigger] net2[c].subs[k]) < net2.len() && net2[net2[c].subs[k] as int].func is Some && reads(
        net2,
        net2[c].subs[k] as int,
        c,
    ) by {
        assert(c < n);
        if k < net[c].subs.len() {
            let s = net[c].subs[k] as int;
            assert(reads(net, s, c));
            let i = choose|i: int| 0 <= i < net[s].deps.len() && #[trigger] net[s].deps[i] == c;
            assert(net2[s].deps[i] == c);
        } else {
            lemma_echo(deps, c, n as usize);
            let e = echo(deps, c, n as usize);
            assert(net2[c].subs[k] == e[k - net[c].subs.len()]);
            let i = choose|i: int| 0 <= i < deps.len() && #[trigger] deps[i] == c;
            assert(net2[n].deps[i] == c);
        }
    }
    assert forall|c: int, j: int| 0 <= c < net2.len() && 0 <= j < net2[c].callbacks.len() implies (
    #[trigger] net2[c].callbacks[j]) < owners.len() && owners[net2[c].callbacks[j] as int] == c by {
        assert(net[c].callbacks[j] < owners.len());
    }
    assert forall|c: int| 0 <= c < net2.len() implies (#[trigger]
        net2[c]).callbacks.no_duplicates() by {
        if c < n {
            assert(net[c].callbacks.no_duplicates());
        }
    }
    assert forall|c: int| 0 <= c < net2.len() && (#[trigger] net2[c]).func is Some implies produces(
        net2[c].func.unwrap(),
        dep_vals(net2, vals2, c),
        vals2[c],
    ) by {
        if c < n {
            assert(net[c].func is Some);
            assert forall|k: int| 0 <= k < net[c].deps.len()
                implies vals2[#[trigger] net[c].deps[k] as int]
                == vals[net[c].deps[k] as int] by {}
            assert(dep_vals(net2, vals2, c) =~= dep_vals(net, vals, c));
        } else {
            assert(dep_vals(net2, vals2, c) =~= Seq::new(deps.len(),
                |k: int| vals[deps[k] as int]));
        }
    }
}

/// Replacing the callback list of a compute cell by one whose callbacks
/// are distinct and owned by that cell leaves the wiring sound and the
/// graph settled.
pub proof fn lemma_with_callbacks<T, F: Fn(&[T]) -> T>(
    net: Seq<Wiring<F>>,
    owners: Seq<usize>,
    owners2: Seq<usize>,
    vals: Seq<T>,
    c: int,
    callbacks: Seq<usize>,
)
    requires
        net_ok::<T, F>(net, owners),
        settled(net, vals),
        0 <= c < net.len(),
        net[c].func is Some,
        callbacks.no_duplicates(),
        owners.len() <= owners2.len(),
        forall|i: int| 0 <= i < owners.len() ==> owners2[i] == owners[i],
        forall|j: int|
            0 <= j < callbacks.len() ==> (#[trigger] callbacks[j]) < owners2.len()
                && owners2[callbacks[j] as int] == c,
    ensures
        net_ok::<T, F>(with_callbacks(net, c, callbacks), owners2),
        settled(with_callbacks(net, c, callbacks), vals),
{
    let net2 = with_callbacks(net, c, callbacks);
    assert forall|x: int| 0 <= x < net2.len() && (#[trigger] net2[x]).func is None
        implies net2[x].deps.len()
        == 0 && net2[x].callbacks.len() == 0 by {
        assert(net[x].func is None);
    }
    assert forall|x: int| 0 <= x < net2.len() && (#[trigger] net2[x]).func is Some
        implies pure_on::<T, F>(
        net2[x].func.unwrap(),
        net2[x].deps.len(),
    ) by {
        assert(net[x].func is Some);
    }
    assert forall|x: int, k: int| 0 <= x < net2.len() && 0 <= k < net2[x].deps.len() implies (
    #[trigger] net2[x].deps[k]) < x && feeds(net2, net2[x].deps[k] as int, x) by {
        let d = net[x].deps[k] as int;
        assert(feeds(net, d, x));
        let j = choose|j: int| 0 <= j < net[d].subs.len() && #[trigger] net[d].subs[j] == x;
        assert(net2[d].subs[j] == x);
    }
    assert forall|x: int, k: int| 0 <= x < net2.len() && 0 <= k < net2[x].subs.len() implies x < (
    #[trigger] net2[x].subs[k]) < net2.len() && net2[net2[x].subs[k] as int].func is Some && reads(
        net2,
        net2[x].subs[k] as int,
        x,
    ) by {
        let s = net[x].subs[k] as int;
        assert(reads(net, s, x));
        let i = choose|i: int| 0 <= i < net[s].deps.len() && #[trigger] net[s].deps[i] == x;
        assert(net2[s].deps[i] == x);
    }
    assert forall|x: int, j: int| 0 <= x < net2.len() && 0 <= j < net2[x].callbacks.len() implies (
    #[trigger] net2[x].callbacks[j]) < owners2.len() && owners2[net2[x].callbacks[j] as int] == x
        by {
        if x != c {
            assert(net[x].callbacks[j] < owners.len());
        }
    }
    assert forall|x: int| 0 <= x < net2.len() implies (#[trigger]
        net2[x]).callbacks.no_duplicates() by {
        if x != c {
            assert(net[x].callbacks.no_duplicates());
        }
    }
    assert forall|x: int| 0 <= x < net2.len() && (#[trigger] net2[x]).func is Some implies produces(
        net2[x].func.unwrap(),
        dep_vals(net2, vals, x),
        vals[x],
    ) by {
        assert(net[x].func is Some);
        assert(dep_vals(net2, vals, x) =~= dep_vals(net, vals, x));
    }
}

/// Every resolved compute cell holds a value that its function returns
/// on the current values of its dependencies.
pub open spec fn grounded<T, F: Fn(&[T]) -> T>(net: Seq<Wiring<F>>, st: Store<T>) -> bool {
    forall|c: int|
        0 <= c < net.len() && #[trigger] st.fresh[c] && net[c].func is Some ==> produces(
            net[c].func.unwrap(),
            dep_vals(net, st.vals, c),
            st.vals[c],
        )
}

/// What a pure function returns on given arguments is its value there.
pub proof fn lemma_produces_eval<T, F: Fn(&[T]) -> T>(f: F, args: Seq<T>, v: T)
    requires
        pure_on::<T, F>(f, args.len()),
        produces(f, args, v),
    ensures
        v == eval(f, args),
{
    let w = eval(f, args);
    assert(produces(f, args, w));
    let s1 = choose|s: &[T]| s@ == args && #[trigger] call_ensures(f, (s,), v);
    let s2 = choose|s: &[T]| s@ == args && #[trigger] call_ensures(f, (s,), w);
    assert(call_ensures(f, (s1,), v) && call_ensures(f, (s2,), w));
}

/// A settled graph of pure functions is balanced.
pub proof fn lemma_settled_balanced<T, F: Fn(&[T]) -> T>(
    net: Seq<Wiring<F>>,
    owners: Seq<usize>,
    vals: Seq<T>,
)
    requires
        net_ok::<T, F>(net, owners),
        settled(net, vals),
    ensures
        balanced(net, vals),
{
    assert forall|c: int| 0 <= c < net.len() && (#[trigger] net[c]).func is Some implies vals[c]
        == eval(
        net[c].func.unwrap(),
        dep_vals(net, vals, c),
    ) by {
        lemma_produces_eval(net[c].func.unwrap(), dep_vals(net, vals, c), vals[c]);
    }
}

/// Recomputing a cell whose dependencies are all resolved keeps the
/// store coherent, and leaves what every resolved cell reads as it was.
pub proof fn lemma_recompute<T, F: Fn(&[T]) -> T>(
    net: Seq<Wiring<F>>,
    owners: Seq<usize>,
    st: Store<T>,
    c: int,
    v: T,
)
    requires
        net_ok::<T, F>(net, owners),
        store_ok(net, st),
        0 <= c < net.len(),
        net[c].func is Some,
        coherent(net, st),
        !blocked(net, st, c),
        v == eval(net[c].func.unwrap(), dep_vals(net, st.vals, c)),
    ensures
        st.fresh[c] ==> v == st.vals[c],
        coherent(net, Store { vals: st.vals.update(c, v), fresh: st.fresh.update(c, true) }),
        carried(st, Store { vals: st.vals.update(c, v), fresh: st.fresh.update(c, true) }),
        forall|x: int|
            0 <= x < net.len() && (x == c || #[trigger] st.fresh[x]) && net[x].func is Some
                ==> dep_vals(
                net,
                st.vals.update(c, v),
                x,
            ) == dep_vals(net, st.vals, x),
{
    let st1 = Store { vals: st.vals.update(c, v), fresh: st.fresh.update(c, true) };
    assert(st.fresh[c] ==> v == st.vals[c]);
    assert forall|x: int| 0 <= x < st.fresh.len() implies #[trigger] carried_at(st, st1, x) by {}
    assert forall|x: int| 0 <= x < net.len() && (x == c || st.fresh[x]) && net[x].func is Some
        implies (
    forall|k: int| 0 <= k < net[x].deps.len() ==> st1.fresh[#[trigger] net[x].deps[k] as int])
        && dep_vals(
        net,
        st1.vals,
        x,
    ) == dep_vals(net, st.vals, x) by {
        assert forall|k: int| 0 <= k < net[x].deps.len()
            implies st1.fresh[#[trigger] net[x].deps[k] as int]
            && st1.vals[net[x].deps[k] as int] == st.vals[net[x].deps[k] as int] by {
            let d = net[x].deps[k] as int;
            if x == c {
                assert(st.fresh[d]);
            } else {
                assert(st.fresh[x]);
                assert(!blocked(net, st, x));
                assert(st.fresh[d]);
            }
        }
        lemma_dep_vals_agree(net, st1.vals, st.vals, x);
    }
    assert forall|x: int| 0 <= x < net.len() && #[trigger] st1.fresh[x] && net[x].func is Some
        implies !blocked(
        net,
        st1,
        x,
    ) && st1.vals[x] == eval(net[x].func.unwrap(), dep_vals(net, st1.vals, x)) by {
        if x != c {
            assert(st.fresh[x]);
        }
    }
    assert forall|x: int| 0 <= x < net.len() && (#[trigger] net[x]).func is None
        implies st1.fresh[x] by {
        assert(st.fresh[x]);
    }
}

/// After marking, the store is coherent, and every cell that is still
/// resolved reads what it read before and holds what it held.
pub proof fn lemma_marked<T, F: Fn(&[T]) -> T>(
    net: Seq<Wiring<F>>,
    owners: Seq<usize>,
    vals: Seq<T>,
    a: int,
    v: T,
)
    requires
        net_ok::<T, F>(net, owners),
        vals.len() == net.len(),
        0 <= a < net.len(),
        net[a].func is None,
        balanced(net, vals),
    ensures
        store_ok(net, marked(net, vals, a, v)),
        coherent(net, marked(net, vals, a, v)),
        forall|x: int|
            0 <= x < net.len() && #[trigger] marked(net, vals, a, v).fresh[x] && net[x].func is Some
                ==> dep_vals(net, marked(net, vals, a, v).vals, x) == dep_vals(net, vals, x)
                    && marked(
                net,
                vals,
                a,
                v,
            ).vals[x] == vals[x],
{
    let st0 = marked(net, vals, a, v);
    assert forall|x: int| 0 <= x < net.len() && (#[trigger] net[x]).func is None
        implies st0.fresh[x] by {
        assert(!downstream(net, a, x));
    }
    assert forall|x: int|
        0 <= x < net.len() && #[trigger] st0.fresh[x] && net[x].func is Some implies !blocked(net,
            st0, x)
        && st0.vals[x] == eval(net[x].func.unwrap(), dep_vals(net, st0.vals, x)) && dep_vals(
        net,
        st0.vals,
        x,
    ) == dep_vals(net, vals, x) && st0.vals[x] == vals[x] by {
        assert(!downstream(net, a, x));
        assert forall|k: int| 0 <= k < net[x].deps.len()
            implies st0.fresh[#[trigger] net[x].deps[k] as int]
            && st0.vals[net[x].deps[k] as int] == vals[net[x].deps[k] as int] by {
            assert(net[x].deps[k] < x);
        }
        lemma_dep_vals_agree(net, st0.vals, vals, x);
    }
}

} // verus!
