//! The mathematical model of a reactor: the wiring between cells, the
//! values they hold, and one propagation batch as a function from the
//! state before it to the state after it and the callbacks fired.

use super::ids::CellId;
use vstd::prelude::*;

verus! {

/// The fixed part of one cell: its compute function (none for an input
/// cell), the slots it reads in argument order, the slots that read it in
/// registration order, and the callbacks registered on it in
/// registration order.
#[verifier::ext_equal]
pub struct Wiring<F> {
    pub func: Option<F>,
    pub deps: Seq<usize>,
    pub subs: Seq<usize>,
    pub callbacks: Seq<usize>,
}

/// One invocation of a callback: which one, and the value handed to it.
#[verifier::ext_equal]
pub struct Firing<T> {
    pub callback: usize,
    pub value: T,
}

/// What a reactor is, seen from outside: the wiring of every cell, the
/// value of every cell, for each callback ever registered the cell it was
/// registered on, and every callback invocation made so far, oldest first.
#[verifier::ext_equal]
pub struct ReactorView<T, F> {
    pub net: Seq<Wiring<F>>,
    pub vals: Seq<T>,
    pub owners: Seq<usize>,
    pub history: Seq<Firing<T>>,
}

/// The working state of a batch: current values, and for each cell
/// whether it is resolved (`true`) or stale (`false`).
#[verifier::ext_equal]
pub struct Store<T> {
    pub vals: Seq<T>,
    pub fresh: Seq<bool>,
}

/// The outcome of a stretch of resolving: the state reached and the
/// callback invocations made on the way, in order.
#[verifier::ext_equal]
pub struct Step<T> {
    pub store: Store<T>,
    pub fired: Seq<Firing<T>>,
}

/// `out` is a value that `f` may return when called on a slice holding
/// exactly `args`.
pub open spec fn produces<T, F: Fn(&[T]) -> T>(f: F, args: Seq<T>, out: T) -> bool {
    exists|s: &[T]| s@ == args && #[trigger] call_ensures(f, (s,), out)
}

/// `f` is a pure function of `arity` arguments: it accepts every slice of
/// that length, and what it returns depends on the slice's contents alone.
pub open spec fn pure_on<T, F: Fn(&[T]) -> T>(f: F, arity: nat) -> bool {
    &&& forall|s: &[T]| s@.len() == arity ==> #[trigger] call_requires(f, (s,))
    &&& forall|s1: &[T], s2: &[T], r1: T, r2: T|
        s1@.len() == arity && s1@ == s2@ && #[trigger] call_ensures(f, (s1,), r1)
            && #[trigger] call_ensures(f, (s2,), r2) ==> r1 == r2
}

/// The value of the pure function `f` at `args`.
pub open spec fn eval<T, F: Fn(&[T]) -> T>(f: F, args: Seq<T>) -> T {
    choose|r: T| produces(f, args, r)
}

/// The current values of the dependencies of cell `c`, in argument order.
pub open spec fn dep_vals<T, F>(net: Seq<Wiring<F>>, vals: Seq<T>, c: int) -> Seq<T> {
    Seq::new(net[c].deps.len(), |k: int| vals[net[c].deps[k] as int])
}

/// Cell `x` lists cell `d` among its dependencies.
pub open spec fn reads<F>(net: Seq<Wiring<F>>, x: int, d: int) -> bool {
    exists|k: int| 0 <= k < net[x].deps.len() && #[trigger] net[x].deps[k] == d
}

/// Cell `d` lists cell `x` among its subscribers.
pub open spec fn feeds<F>(net: Seq<Wiring<F>>, d: int, x: int) -> bool {
    exists|j: int| 0 <= j < net[d].subs.len() && #[trigger] net[d].subs[j] == x
}

/// The wiring is that of a reactor: dependencies precede the cell that
/// reads them, `subs` is the mirror image of `deps`, input cells read
/// nothing and carry no callbacks, every compute function is pure, and
/// each callback is listed once, on the cell that owns it.
pub open spec fn net_ok<T, F: Fn(&[T]) -> T>(net: Seq<Wiring<F>>, owners: Seq<usize>) -> bool {
    &&& forall|c: int|
        0 <= c < net.len() && (#[trigger] net[c]).func is None ==> net[c].deps.len() == 0
            && net[c].callbacks.len() == 0
    &&& forall|c: int|
        0 <= c < net.len() && (#[trigger] net[c]).func is Some ==> pure_on::<T, F>(
            net[c].func.unwrap(),
            net[c].deps.len(),
        )
    &&& forall|c: int, k: int|
        0 <= c < net.len() && 0 <= k < net[c].deps.len() ==> (#[trigger] net[c].deps[k]) < c
            && feeds(net, net[c].deps[k] as int, c)
    &&& forall|c: int, k: int|
        0 <= c < net.len() && 0 <= k < net[c].subs.len() ==> c < (#[trigger] net[c].subs[k])
            < net.len() && net[net[c].subs[k] as int].func is Some
            && reads(net, net[c].subs[k] as int, c)
    &&& forall|c: int, j: int|
        0 <= c < net.len() && 0 <= j < net[c].callbacks.len() ==> (
        #[trigger] net[c].callbacks[j]) < owners.len() && owners[net[c].callbacks[j] as int] == c
    &&& forall|c: int| 0 <= c < net.len() ==> (#[trigger] net[c]).callbacks.no_duplicates()
}

/// Every compute cell holds a value that its function returns on the
/// current values of its dependencies.
pub open spec fn settled<T, F: Fn(&[T]) -> T>(net: Seq<Wiring<F>>, vals: Seq<T>) -> bool {
    forall|c: int|
        0 <= c < net.len() && (#[trigger] net[c]).func is Some ==> produces(
            net[c].func.unwrap(),
            dep_vals(net, vals, c),
            vals[c],
        )
}

/// Every compute cell holds the value of its function at the current
/// values of its dependencies. For pure functions this is what
/// [`settled`] says, written with [`eval`].
pub open spec fn balanced<T, F: Fn(&[T]) -> T>(net: Seq<Wiring<F>>, vals: Seq<T>) -> bool {
    forall|c: int|
        0 <= c < net.len() && (#[trigger] net[c]).func is Some ==> vals[c] == eval(
            net[c].func.unwrap(),
            dep_vals(net, vals, c),
        )
}

/// Cell `x` is reachable from cell `a` along one or more edges from a
/// dependency to the cell that reads it.
pub open spec fn downstream<F>(net: Seq<Wiring<F>>, a: int, x: int) -> bool
    decreases x,
{
    exists|k: int|
        0 <= k < net[x].deps.len() && 0 <= (#[trigger] net[x].deps[k]) < x && (net[x].deps[k] == a
            || downstream(net, a, net[x].deps[k] as int))
}

/// Some dependency of cell `c` is stale.
pub open spec fn blocked<T, F>(net: Seq<Wiring<F>>, st: Store<T>, c: int) -> bool {
    exists|k: int| 0 <= k < net[c].deps.len() && !st.fresh[#[trigger] net[c].deps[k] as int]
}

/// The invocations made when a cell with these callbacks takes the new
/// value `v`: each callback once, in registration order.
pub open spec fn announce<T>(callbacks: Seq<usize>, v: T) -> Seq<Firing<T>> {
    Seq::new(callbacks.len(), |j: int| Firing { callback: callbacks[j], value: v })
}

/// Resolving cell `c`. Nothing happens while a dependency of `c` is
/// stale. Otherwise `c` is recomputed and becomes resolved; its callbacks
/// fire if the value differs from the cached one; then each subscriber of
/// `c` is resolved in turn, whether or not the value changed.
pub open spec fn resolve<T, F: Fn(&[T]) -> T>(net: Seq<Wiring<F>>, st: Store<T>, c: int) -> Step<T>
    decreases net.len() - c, 1int, 0int,
{
    if c < 0 || c >= net.len() || net[c].func is None || blocked(net, st, c) {
        Step { store: st, fired: Seq::empty() }
    } else {
        let v = eval(net[c].func.unwrap(), dep_vals(net, st.vals, c));
        let own = if v != st.vals[c] {
            announce(net[c].callbacks, v)
        } else {
            Seq::empty()
        };
        let st1 = Store { vals: st.vals.update(c, v), fresh: st.fresh.update(c, true) };
        let rest = resolve_subs(net, st1, c, 0);
        Step { store: rest.store, fired: own + rest.fired }
    }
}

/// Resolving the subscribers of cell `c` from position `k` on, in
/// registration order, each one depth-first before the next.
pub open spec fn resolve_subs<T, F: Fn(&[T]) -> T>(
    net: Seq<Wiring<F>>,
    st: Store<T>,
    c: int,
    k: int,
) -> Step<T>
    decreases net.len() - c, 0int, net[c].subs.len() - k,
{
    if c < 0 || c >= net.len() || k < 0 || k >= net[c].subs.len() {
        Step { store: st, fired: Seq::empty() }
    } else {
        let s = net[c].subs[k] as int;
        let first = if c < s < net.len() {
            resolve(net, st, s)
        } else {
            Step { store: st, fired: Seq::empty() }
        };
        let rest = resolve_subs(net, first.store, c, k + 1);
        Step { store: rest.store, fired: first.fired + rest.fired }
    }
}

/// The state in which resolving starts when input `a` takes the value
/// `v`: the new value is stored, and exactly the cells downstream of `a`
/// are stale.
pub open spec fn marked<T, F>(net: Seq<Wiring<F>>, vals: Seq<T>, a: int, v: T) -> Store<T> {
    Store { vals: vals.update(a, v), fresh: Seq::new(net.len(), |x: int| !downstream(net, a, x)) }
}

/// One whole batch: input `a` takes the value `v`, everything downstream
/// is marked stale, and the direct subscribers of `a` are resolved in
/// registration order.
pub open spec fn batch<T, F: Fn(&[T]) -> T>(net: Seq<Wiring<F>>, vals: Seq<T>, a: int,
    v: T) -> Step<
    T,
> {
    resolve_subs(net, marked(net, vals, a, v), a, 0)
}

/// The values with which callback `cb` was invoked in `log`, in order.
pub open spec fn heard<T>(log: Seq<Firing<T>>, cb: usize) -> Seq<T>
    decreases log.len(),
{
    if log.len() == 0 {
        Seq::empty()
    } else if log.last().callback == cb {
        heard(log.drop_last(), cb).push(log.last().value)
    } else {
        heard(log.drop_last(), cb)
    }
}

/// Callback `cb` is currently registered on some cell.
pub open spec fn registered<F>(net: Seq<Wiring<F>>, owners: Seq<usize>, cb: usize) -> bool {
    &&& cb < owners.len()
    &&& owners[cb as int] < net.len()
    &&& net[owners[cb as int] as int].callbacks.contains(cb)
}

/// Only registered callbacks were invoked on the way from `before` to
/// `after`, and each callback of a cell was invoked once with the cell's
/// new value if the value differs, and not at all if it does not.
pub open spec fn told<T, F>(
    net: Seq<Wiring<F>>,
    owners: Seq<usize>,
    before: Seq<T>,
    after: Seq<T>,
    fired: Seq<Firing<T>>,
) -> bool {
    &&& forall|i: int| 0 <= i < fired.len() ==> registered(net, owners,
        (#[trigger] fired[i]).callback)
    &&& forall|c: int, j: int|
        0 <= c < net.len() && 0 <= j < net[c].callbacks.len() ==> heard(
            fired,
            #[trigger] net[c].callbacks[j],
        ) == if after[c] != before[c] {
            seq![after[c]]
        } else {
            Seq::empty()
        }
}

/// The slots that a list of cell ids names, in order.
pub open spec fn slots(ids: Seq<CellId>) -> Seq<usize> {
    Seq::new(ids.len(), |k: int| ids[k].slot())
}

/// One copy of `id` for each time that `x` occurs in `deps`: what the
/// subscriber list of `x` gains when the cell `id` is created with the
/// dependencies `deps`.
pub open spec fn echo(deps: Seq<usize>, x: int, id: usize) -> Seq<usize>
    decreases deps.len(),
{
    if deps.len() == 0 {
        Seq::empty()
    } else if deps.last() == x {
        echo(deps.drop_last(), x, id).push(id)
    } else {
        echo(deps.drop_last(), x, id)
    }
}

/// The wiring of a fresh input cell.
pub open spec fn input_wiring<F>() -> Wiring<F> {
    Wiring { func: None, deps: Seq::empty(), subs: Seq::empty(), callbacks: Seq::empty() }
}

/// The wiring after a compute cell with function `f` and dependencies
/// `deps` has been added to `net`: the new cell stands last, and each of
/// its dependencies has it as a subscriber once per occurrence.
pub open spec fn grown<F>(net: Seq<Wiring<F>>, f: F, deps: Seq<usize>) -> Seq<Wiring<F>> {
    Seq::new(
        net.len() + 1,
        |x: int|
            if x < net.len() {
                Wiring {
                    func: net[x].func,
                    deps: net[x].deps,
                    subs: net[x].subs + echo(deps, x, net.len() as usize),
                    callbacks: net[x].callbacks,
                }
            } else {
                Wiring { func: Some(f), deps: deps, subs: Seq::empty(), callbacks: Seq::empty() }
            },
    )
}

/// The wiring after the callback list of cell `c` has been replaced.
pub open spec fn with_callbacks<F>(net: Seq<Wiring<F>>, c: int,
    callbacks: Seq<usize>) -> Seq<Wiring<F>> {
    net.update(
        c,
        Wiring { func: net[c].func, deps: net[c].deps, subs: net[c].subs, callbacks: callbacks },
    )
}

} // verus!
