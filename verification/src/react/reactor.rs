//! The reactor itself: the cell store, the callback registry and the
//! propagation engine behind the public operations.

use super::ids::{CallbackId, CellId, ComputeCellId, InputCellId, RemoveCallbackError};
use super::lemmas::{
    below, coherent, grounded, lemma_batch, lemma_batch_idle, lemma_downstream_step, lemma_grown,
    lemma_marked, lemma_produces_eval, lemma_push_input, lemma_recompute, lemma_settled_balanced,
    lemma_with_callbacks,
};
use super::model::{
    announce, batch, blocked, dep_vals, downstream, echo, eval, grown, input_wiring, marked, net_ok,
    produces, pure_on, registered, resolve, resolve_subs, settled, slots, told, with_callbacks,
        Firing, ReactorView,
    Store, Wiring,
};
use vstd::laws_eq::obeys_concrete_eq;
use vstd::prelude::*;

verus! {

/// One cell of the store. An input cell has no compute function, no
/// dependencies and no callbacks.
struct Cell<T, F> {
    value: T,
    compute: Option<F>,
    deps: Vec<usize>,
    subscribers: Vec<usize>,
    callbacks: Vec<usize>,
    resolved: bool,
}

impl<T, F> Cell<T, F> {
    spec fn wiring(&self) -> Wiring<F> {
        Wiring {
            func: self.compute,
            deps: self.deps@,
            subs: self.subscribers@,
            callbacks: self.callbacks@,
        }
    }
}

/// A reactive computation graph over values of type `T`.
///
/// `F` is the type of the compute functions and `C` the type of the
/// callbacks; a reactor that is to hold closures of several kinds takes
/// boxed closures for both.
///
/// Callbacks run on the caller's stack while a batch is in flight. They
/// must not call back into the reactor that invokes them.
pub struct Reactor<T, F, C> {
    cells: Vec<Cell<T, F>>,
    hooks: Vec<C>,
    owners: Vec<usize>,
    history: Ghost<Seq<Firing<T>>>,
}

/// A reactor that holds boxed closures, so that every compute function
/// and every callback may be a closure of its own.
pub type BoxedReactor<'a, T> = Reactor<T, Box<dyn Fn(&[T]) -> T + 'a>, Box<dyn FnMut(T) + 'a>>;

impl<T, F> ReactorView<T, F> {
    /// The reactor has a cell of the kind that `id` names in the slot
    /// that `id` names.
    pub open spec fn holds(self, id: CellId) -> bool {
        id.slot() < self.net.len() && (id.is_input() <==> self.net[id.slot() as int].func is None)
    }
}

impl<T, F, C> View for Reactor<T, F, C> {
    type V = ReactorView<T, F>;

    closed spec fn view(&self) -> ReactorView<T, F> {
        ReactorView {
            net: Seq::new(self.cells.len() as nat, |i: int| self.cells[i].wiring()),
            vals: Seq::new(self.cells.len() as nat, |i: int| self.cells[i].value),
            owners: self.owners@,
            history: self.history@,
        }
    }
}

impl<T: Copy + PartialEq, F: Fn(&[T]) -> T, C: FnMut(T)> Reactor<T, F, C> {
    /// The values and the per-batch flags of all cells.
    spec fn store(&self) -> Store<T> {
        Store {
            vals: Seq::new(self.cells.len() as nat, |i: int| self.cells[i].value),
            fresh: Seq::new(self.cells.len() as nat, |i: int| self.cells[i].resolved),
        }
    }

    /// What holds of the representation at every moment, also in the
    /// middle of a batch.
    spec fn inv(&self) -> bool {
        &&& self.hooks.len() == self.owners.len()
        &&& forall|j: int, x: T| 0 <= j < self.hooks.len()
            ==> #[trigger] call_requires(self.hooks[j], (x,))
        &&& net_ok::<T, F>(self@.net, self@.owners)
    }

    /// The reactor is between batches: its wiring is sound, every cell is
    /// resolved, and every compute cell is consistent with its
    /// dependencies.
    pub closed spec fn wf(&self) -> bool {
        &&& self.inv()
        &&& forall|i: int| 0 <= i < self.cells.len() ==> (#[trigger] self.cells[i]).resolved
        &&& settled(self@.net, self@.vals)
    }

    /// What a well-formed reactor guarantees about its view.
    pub proof fn wf_view(&self)
        requires
            self.wf(),
        ensures
            self@.vals.len() == self@.net.len(),
            net_ok::<T, F>(self@.net, self@.owners),
            settled(self@.net, self@.vals),
    {
    }

    /// A reactor without cells.
    pub fn new() -> (r: Self)
        ensures
            r.wf(),
            r@.net.len() == 0,
            r@.vals.len() == 0,
            r@.owners.len() == 0,
            r@.history.len() == 0,
    {
        Reactor { cells: Vec::new(), hooks: Vec::new(), owners: Vec::new(),
            history: Ghost(Seq::empty()) }
    }

    /// The slot that the next cell will take.
    fn next_id(&self) -> (id: usize)
        ensures
            id == self@.net.len(),
    {
        self.cells.len()
    }

    /// Whether `id` names a cell of this reactor, of the kind it claims.
    fn has(&self, id: CellId) -> (b: bool)
        ensures
            b == self@.holds(id),
    {
        let n = id.index();
        match id {
            CellId::Input(_) => n < self.cells.len() && self.cells[n].compute.is_none(),
            CellId::Compute(_) => n < self.cells.len() && self.cells[n].compute.is_some(),
        }
    }

    /// Creates an input cell with the specified initial value, returning
    /// its id.
    pub fn create_input(&mut self, initial: T) -> (id: InputCellId)
        requires
            old(self).wf(),
        ensures
            final(self).wf(),
            id.slot() == old(self)@.net.len(),
            final(self)@.holds(CellId::Input(id)),
            forall|i: CellId| old(self)@.holds(i) ==> final(self)@.holds(i),
            final(self)@.net == old(self)@.net.push(input_wiring()),
            final(self)@.vals == old(self)@.vals.push(initial),
            final(self)@.owners == old(self)@.owners,
            final(self)@.history == old(self)@.history,
    {
        let n = self.next_id();
        self.cells.push(
            Cell {
                value: initial,
                compute: None,
                deps: Vec::new(),
                subscribers: Vec::new(),
                callbacks: Vec::new(),
                resolved: true,
            },
        );
        proof {
            lemma_push_input::<T, F>(old(self)@.net, old(self)@.owners, old(self)@.vals, initial);
            assert(self@.net =~= old(self)@.net.push(input_wiring()));
            assert(self@.vals =~= old(self)@.vals.push(initial));
        }
        InputCellId::at(n)
    }

    /// Creates a compute cell with the specified dependencies and compute
    /// function, which takes the dependencies' values in the order given.
    /// The function must be pure: it accepts every slice of as many
    /// values as there are dependencies, and what it returns depends on
    /// the values alone.
    ///
    /// If a dependency does not exist, nothing is changed and the first
    /// such dependency is returned as the error. Otherwise the new cell
    /// becomes a subscriber of each dependency, once for each time it
    /// lists it, and holds the value of its function at their values.
    pub fn create_compute(&mut self, dependencies: &[CellId], compute_func: F) -> (r: Result<
        ComputeCellId,
        CellId,
    >)
        requires
            old(self).wf(),
            pure_on::<T, F>(compute_func, dependencies@.len()),
        ensures
            final(self).wf(),
            r is Ok <==> forall|k: int|
                0 <= k < dependencies@.len() ==> old(self)@.holds(#[trigger] dependencies@[k]),
            forall|i: CellId| old(self)@.holds(i) ==> final(self)@.holds(i),
            r matches Ok(id) ==> final(self)@.holds(CellId::Compute(id)),
            r matches Err(d) ==> final(self)@ == old(self)@ && exists|k: int|
                0 <= k < dependencies@.len() && d == #[trigger] dependencies@[k]
                    && !old(self)@.holds(d)
                    && forall|i: int| 0 <= i < k ==> old(self)@.holds(#[trigger] dependencies@[i]),
            r matches Ok(id) ==> {
                &&& id.slot() == old(self)@.net.len()
                &&& final(self)@.net == grown(old(self)@.net, compute_func, slots(dependencies@))
                &&& final(self)@.vals == old(self)@.vals.push(
                    eval(
                        compute_func,
                        Seq::new(
                            dependencies@.len(),
                            |k: int| old(self)@.vals[dependencies@[k].slot() as int],
                        ),
                    ),
                )
                &&& produces(
                    compute_func,
                    Seq::new(
                        dependencies@.len(),
                        |k: int| old(self)@.vals[dependencies@[k].slot() as int],
                    ),
                    final(self)@.vals.last(),
                )
                &&& final(self)@.owners == old(self)@.owners
                &&& final(self)@.history == old(self)@.history
            },
    {
        let n = dependencies.len();
        let mut k: usize = 0;
        while k < n
            invariant
                *self == *old(self),
                self.wf(),
                k <= n,
                n == dependencies@.len(),
                forall|i: int| 0 <= i < k ==> self@.holds(#[trigger] dependencies@[i]),
            decreases n - k,
        {
            if !self.has(dependencies[k]) {
                return Err(dependencies[k]);
            }
            k += 1;
        }
        let id = self.next_id();
        let ghost net = self@.net;
        let ghost vals = self@.vals;
        let ghost want = slots(dependencies@);
        let mut deps: Vec<usize> = Vec::new();
        let mut values: Vec<T> = Vec::new();
        let mut k: usize = 0;
        while k < n
            invariant
                k <= n,
                n == dependencies@.len(),
                want == slots(dependencies@),
                forall|i: int| 0 <= i < n ==> old(self)@.holds(#[trigger] dependencies@[i]),
                net == old(self)@.net,
                vals == old(self)@.vals,
                self.cells.len() == id,
                id == old(self).cells.len(),
                self.hooks == old(self).hooks,
                self.owners == old(self).owners,
                self.history == old(self).history,
                deps@ == want.take(k as int),
                values@.len() == k,
                forall|i: int| 0 <= i < k ==> values@[i] == vals[#[trigger] want[i] as int],
                forall|x: int|
                    0 <= x < id ==> {
                        &&& (#[trigger] self.cells[x]).value == old(self).cells[x].value
                        &&& self.cells[x].compute == old(self).cells[x].compute
                        &&& self.cells[x].deps == old(self).cells[x].deps
                        &&& self.cells[x].callbacks == old(self).cells[x].callbacks
                        &&& self.cells[x].resolved == old(self).cells[x].resolved
                        &&& self.cells[x].subscribers@ == old(self).cells[x].subscribers@ + echo(
                            deps@,
                            x,
                            id,
                        )
                    },
            decreases n - k,
        {
            let d = dependencies[k].index();
            assert(old(self)@.holds(dependencies@[k as int]));
            assert(d == want[k as int]);
            let ghost before = *self;
            let ghost seen = deps@;
            self.cells[d].subscribers.push(id);
            values.push(self.cells[d].value);
            deps.push(d);
            proof {
                assert(deps@ =~= want.take(k + 1));
                assert(deps@.drop_last() =~= seen);
                assert forall|x: int| 0 <= x < id implies (#[trigger] self.cells[x]).subscribers@
                    == old(
                    self,
                ).cells[x].subscribers@ + echo(deps@, x, id) by {
                    if x == d {
                        assert(self.cells[x].subscribers@ =~= old(self).cells[x].subscribers@
                            + echo(
                            seen,
                            x,
                            id,
                        ).push(id));
                    } else {
                        assert(self.cells[x].subscribers@ == before.cells[x].subscribers@);
                    }
                }
            }
            k += 1;
        }
        let value = compute_func(values.as_slice());
        proof {
            assert(deps@ =~= want);
            let args = Seq::new(dependencies@.len(), |k: int| vals[dependencies@[k].slot() as int]);
            assert forall|k: int| 0 <= k < values@.len() implies values@[k] == args[k] by {
                assert(values@[k] == vals[want[k] as int]);
            }
            assert(values@ =~= args);
            assert(produces(compute_func, args, value));
            assert forall|k: int| 0 <= k < want.len() implies (#[trigger] want[k]) < net.len() by {
                assert(old(self)@.holds(dependencies@[k]));
            }
            assert(Seq::new(want.len(), |k: int| vals[want[k] as int]) =~= args);
            lemma_grown::<T, F>(net, self@.owners, vals, compute_func, want, value);
        }
        self.cells.push(
            Cell {
                value,
                compute: Some(compute_func),
                deps,
                subscribers: Vec::new(),
                callbacks: Vec::new(),
                resolved: true,
            },
        );
        proof {
            assert(self@.net =~= grown(net, compute_func, want));
            assert(self@.vals =~= vals.push(value));
        }
        Ok(ComputeCellId::at(id))
    }

    /// Adds a callback to the specified compute cell. Returns the id of
    /// the callback, or `None`, with nothing changed, if the cell does
    /// not exist. The callback must accept every value.
    ///
    /// In one batch the callback is invoked once, with the cell's final
    /// value, if the value of the cell has changed, and not at all if it
    /// has not.
    pub fn add_callback(&mut self, id: ComputeCellId, callback: C) -> (r: Option<CallbackId>)
        requires
            old(self).wf(),
            forall|x: T| #[trigger] call_requires(callback, (x,)),
        ensures
            final(self).wf(),
            r is Some <==> old(self)@.holds(CellId::Compute(id)),
            forall|i: CellId| old(self)@.holds(i) <==> final(self)@.holds(i),
            r is None ==> final(self)@ == old(self)@,
            r matches Some(cb) ==> {
                &&& cb.slot() == old(self)@.owners.len()
                &&& final(self)@.net == with_callbacks(
                    old(self)@.net,
                    id.slot() as int,
                    old(self)@.net[id.slot() as int].callbacks.push(cb.slot()),
                )
                &&& final(self)@.owners == old(self)@.owners.push(id.slot())
                &&& final(self)@.vals == old(self)@.vals
                &&& final(self)@.history == old(self)@.history
            },
    {
        if !self.has(CellId::Compute(id)) {
            return None;
        }
        let c = id.index();
        let cb = self.hooks.len();
        let ghost net = self@.net;
        let ghost fresh = net[c as int].callbacks.push(cb);
        self.hooks.push(callback);
        self.owners.push(c);
        self.cells[c].callbacks.push(cb);
        proof {
            assert(self@.net =~= with_callbacks(net, c as int, fresh));
            assert(self@.vals =~= old(self)@.vals);
            assert forall|i: int, j: int| 0 <= i < fresh.len() && 0 <= j < fresh.len() && i != j
                implies fresh[i]
                != fresh[j] by {
                if i < fresh.len() - 1 {
                    assert(net[c as int].callbacks[i] < old(self)@.owners.len());
                }
                if j < fresh.len() - 1 {
                    assert(net[c as int].callbacks[j] < old(self)@.owners.len());
                }
            }
            assert forall|j: int| 0 <= j < fresh.len() implies (#[trigger] fresh[j]) <
                self@.owners.len()
                && self@.owners[fresh[j] as int] == c by {
                if j < fresh.len() - 1 {
                    assert(net[c as int].callbacks[j] < old(self)@.owners.len());
                }
            }
            lemma_with_callbacks::<T, F>(
                net,
                old(self)@.owners,
                self@.owners,
                self@.vals,
                c as int,
                fresh,
            );
        }
        Some(CallbackId::at(cb))
    }

    /// Removes the specified callback from the specified compute cell.
    /// A removed callback is never invoked again.
    ///
    /// Fails with `NonexistentCell` if the cell does not exist, and with
    /// `NonexistentCallback` if it exists but the callback is not
    /// registered on it.
    pub fn remove_callback(&mut self, cell: ComputeCellId, callback: CallbackId) -> (r: Result<
        (),
        RemoveCallbackError,
    >)
        requires
            old(self).wf(),
        ensures
            final(self).wf(),
            r == if !old(self)@.holds(CellId::Compute(cell)) {
                Err::<(), RemoveCallbackError>(RemoveCallbackError::NonexistentCell)
            } else if !old(self)@.net[cell.slot() as int].callbacks.contains(callback.slot()) {
                Err(RemoveCallbackError::NonexistentCallback)
            } else {
                Ok(())
            },
            r is Err ==> final(self)@ == old(self)@,
            forall|i: CellId| old(self)@.holds(i) <==> final(self)@.holds(i),
            r is Ok ==> {
                &&& final(self)@.net == with_callbacks(
                    old(self)@.net,
                    cell.slot() as int,
                    old(self)@.net[cell.slot() as int].callbacks.remove(
                        old(self)@.net[cell.slot() as int].callbacks.index_of(callback.slot()),
                    ),
                )
                &&& !final(self)@.net[cell.slot() as int].callbacks.contains(callback.slot())
                &&& !registered(final(self)@.net, final(self)@.owners, callback.slot())
                &&& final(self)@.owners == old(self)@.owners
                &&& final(self)@.vals == old(self)@.vals
                &&& final(self)@.history == old(self)@.history
            },
    {
        if !self.has(CellId::Compute(cell)) {
            return Err(RemoveCallbackError::NonexistentCell);
        }
        let c = cell.index();
        let cb = callback.index();
        let ghost net = self@.net;
        let ghost list = net[c as int].callbacks;
        let n = self.cells[c].callbacks.len();
        let mut j: usize = 0;
        while j < n
            invariant
                *self == *old(self),
                self.wf(),
                net == self@.net,
                c < self.cells.len(),
                c == cell.slot(),
                cb == callback.slot(),
                old(self)@.holds(CellId::Compute(cell)),
                net[c as int].func is Some,
                j <= n,
                n == list.len(),
                list == self.cells[c as int].callbacks@,
                forall|i: int| 0 <= i < j ==> list[i] != cb,
            decreases n - j,
        {
            if self.cells[c].callbacks[j] == cb {
                self.cells[c].callbacks.remove(j);
                proof {
                    assert(list[j as int] == cb);
                    assert(list == net[c as int].callbacks);
                    assert(list.no_duplicates());
                    assert(list.index_of(cb) == j);
                    let rest = list.remove(j as int);
                    assert(self@.net =~= with_callbacks(net, c as int, rest));
                    assert(self@.vals =~= old(self)@.vals);
                    assert(rest.no_duplicates() && !rest.contains(cb)) by {
                        assert forall|i: int| 0 <= i < rest.len() implies rest[i] != cb by {
                            if i < j {
                                assert(rest[i] == list[i]);
                            } else {
                                assert(rest[i] == list[i + 1]);
                            }
                        }
                        assert forall|i: int, k: int|
                            0 <= i < rest.len() && 0 <= k < rest.len() && i != k implies rest[i]
                            != rest[k] by {
                            let i0 = if i < j { i } else { i + 1 };
                            let k0 = if k < j { k } else { k + 1 };
                            assert(rest[i] == list[i0] && rest[k] == list[k0]);
                        }
                    }
                    assert(net[c as int].callbacks[j as int] < self@.owners.len());
                    assert(self@.owners[cb as int] == c);
                    assert forall|i: int| 0 <= i < rest.len()
                        implies (#[trigger] rest[i]) < self@.owners.len()
                        && self@.owners[rest[i] as int] == c by {
                        let i0 = if i < j { i } else { i + 1 };
                        assert(rest[i] == net[c as int].callbacks[i0]);
                    }
                    lemma_with_callbacks::<T, F>(
                        net,
                        self@.owners,
                        self@.owners,
                        self@.vals,
                        c as int,
                        rest,
                    );
                }
                return Ok(());
            }
            j += 1;
        }
        Err(RemoveCallbackError::NonexistentCallback)
    }

    /// Invokes one callback and records the invocation. No callback is
    /// invoked anywhere else.
    fn call_back(&mut self, cb: usize, v: T)
        requires
            old(self).inv(),
            cb < old(self).hooks.len(),
        ensures
            final(self).inv(),
            final(self).cells.len() == old(self).cells.len(),
            final(self)@.net == old(self)@.net,
            final(self)@.owners == old(self)@.owners,
            final(self).store() == old(self).store(),
            final(self)@.history == old(self)@.history.push(Firing { callback: cb, value: v }),
    {
        (self.hooks[cb])(v);
        proof {
            self.history@ = self.history@.push(Firing { callback: cb, value: v });
        }
    }

    /// Invokes the callbacks of cell `c` with its new value `v`, in
    /// registration order.
    fn execute_callbacks(&mut self, c: usize, v: T)
        requires
            old(self).inv(),
            c < old(self).cells.len(),
        ensures
            final(self).inv(),
            final(self).cells.len() == old(self).cells.len(),
            final(self)@.net == old(self)@.net,
            final(self)@.owners == old(self)@.owners,
            final(self).store() == old(self).store(),
            final(self)@.history == old(self)@.history + announce(
                old(self)@.net[c as int].callbacks,
                v,
            ),
    {
        let ghost callbacks = self@.net[c as int].callbacks;
        let n = self.cells[c].callbacks.len();
        let mut j: usize = 0;
        while j < n
            invariant
                self.inv(),
                c < self.cells.len(),
                j <= n,
                n == callbacks.len(),
                self@.net == old(self)@.net,
                self@.owners == old(self)@.owners,
                self.store() == old(self).store(),
                callbacks == self@.net[c as int].callbacks,
                self@.history == old(self)@.history + announce(callbacks, v).take(j as int),
            decreases n - j,
        {
            let cb = self.cells[c].callbacks[j];
            assert(cb == self@.net[c as int].callbacks[j as int]);
            self.call_back(cb, v);
            proof {
                let said = announce(callbacks, v);
                assert(said.take(j + 1) =~= said.take(j as int).push(Firing { callback: cb, value: v }));
            }
            j += 1;
        }
        proof {
            assert(announce(callbacks, v).take(n as int) =~= announce(callbacks, v));
        }
    }

    /// Marks every cell downstream of `c` stale.
    fn mark(&mut self, c: usize)
        requires
            old(self).inv(),
            c < old(self).cells.len(),
        ensures
            final(self).inv(),
            final(self).cells.len() == old(self).cells.len(),
            final(self)@ == old(self)@,
            final(self).store().vals == old(self).store().vals,
            final(self).store().fresh.len() == old(self).store().fresh.len(),
            forall|x: int|
                0 <= x < old(self).cells.len() ==> #[trigger] final(self).store().fresh[x] == (old(
                    self,
                ).store().fresh[x] && !downstream(old(self)@.net, c as int, x)),
        decreases old(self).cells.len() - c,
    {
        let ghost net = self@.net;
        let n = self.cells[c].subscribers.len();
        let mut k: usize = 0;
        while k < n
            invariant
                self.inv(),
                c < self.cells.len(),
                k <= n,
                n == net[c as int].subs.len(),
                self.cells.len() == old(self).cells.len(),
                net == old(self)@.net,
                self@ == old(self)@,
                self.store().vals == old(self).store().vals,
                forall|x: int|
                    0 <= x < self.cells.len() ==> #[trigger] self.store().fresh[x] == (old(
                        self,
                    ).store().fresh[x] && !below(net, c as int, k as int, x)),
            decreases n - k,
        {
            let ghost before = self.store();
            let s = self.cells[c].subscribers[k];
            assert(s == net[c as int].subs[k as int]);
            self.mark(s);
            let ghost mid = *self;
            self.cells[s].resolved = false;
            proof {
                assert(self@.net =~= mid@.net);
                assert(self@.vals =~= mid@.vals);
                assert(self.store().vals =~= mid.store().vals);
                assert forall|x: int| 0 <= x < self.cells.len()
                    implies #[trigger] self.store().fresh[x] == (
                old(self).store().fresh[x] && !below(net, c as int, k + 1, x)) by {
                    assert(mid.store().fresh[x] == (before.fresh[x] && !downstream(net, s as int,
                        x)));
                    assert(self.store().fresh[x] == (x != s && mid.store().fresh[x]));
                    if below(net, c as int, k as int, x) {
                        let j = choose|j: int|
                            0 <= j < k && j < net[c as int].subs.len() && ((
                            #[trigger] net[c as int].subs[j]) == x || downstream(
                                net,
                                net[c as int].subs[j] as int,
                                x,
                            ));
                        assert(below(net, c as int, k + 1, x));
                    }
                    if x == s || downstream(net, s as int, x) {
                        assert(net[c as int].subs[k as int] == x || downstream(
                            net,
                            net[c as int].subs[k as int] as int,
                            x,
                        ));
                        assert(below(net, c as int, k + 1, x));
                    }
                    if below(net, c as int, k + 1, x) {
                        let j = choose|j: int|
                            0 <= j < k + 1 && j < net[c as int].subs.len() && ((
                            #[trigger] net[c as int].subs[j]) == x || downstream(
                                net,
                                net[c as int].subs[j] as int,
                                x,
                            ));
                        if j < k {
                            assert(below(net, c as int, k as int, x));
                        }
                    }
                }
            }
            k += 1;
        }
        proof {
            assert forall|x: int| 0 <= x < old(self).cells.len()
                implies #[trigger] self.store().fresh[x]
                == (old(self).store().fresh[x] && !downstream(net, c as int, x)) by {
                lemma_downstream_step::<T, F>(net, self@.owners, c as int, x);
            }
        }
    }

    /// Resolves cell `c`: recomputes it once none of its dependencies
    /// is stale, tells its callbacks of a change, and goes on to its
    /// subscribers.
    fn notify(&mut self, c: usize)
        requires
            old(self).inv(),
            c < old(self).cells.len(),
            obeys_concrete_eq::<T>(),
            coherent(old(self)@.net, old(self).store()),
            grounded(old(self)@.net, old(self).store()),
        ensures
            final(self).inv(),
            final(self).cells.len() == old(self).cells.len(),
            final(self)@.net == old(self)@.net,
            final(self)@.owners == old(self)@.owners,
            coherent(final(self)@.net, final(self).store()),
            grounded(final(self)@.net, final(self).store()),
            final(self).store() == resolve(old(self)@.net, old(self).store(), c as int).store,
            final(self)@.history == old(self)@.history + resolve(
                old(self)@.net,
                old(self).store(),
                c as int,
            ).fired,
        decreases old(self).cells.len() - c,
    {
        let ghost net = self@.net;
        let ghost st = self.store();
        let ghost h = self@.history;
        let mut values: Vec<T> = Vec::new();
        let nd = self.cells[c].deps.len();
        let mut k: usize = 0;
        while k < nd
            invariant
                *self == *old(self),
                self.inv(),
                c < self.cells.len(),
                k <= nd,
                nd == self.cells[c as int].deps.len(),
                values@.len() == k,
                forall|i: int|
                    0 <= i < k ==> st.fresh[#[trigger] net[c as int].deps[i] as int] && values@[i]
                        == st.vals[net[c as int].deps[i] as int],
                net == self@.net,
                st == self.store(),
                coherent(net, st),
                grounded(net, st),
            decreases nd - k,
        {
            let d = self.cells[c].deps[k];
            assert(d == net[c as int].deps[k as int]);
            if !self.cells[d].resolved {
                proof {
                    assert(!st.fresh[net[c as int].deps[k as int] as int]);
                    assert(blocked(net, st, c as int));
                    assert(h + Seq::<Firing<T>>::empty() =~= h);
                }
                return ;
            }
            values.push(self.cells[d].value);
            k += 1;
        }
        let v = match &self.cells[c].compute {
            Some(f) => f(values.as_slice()),
            None => {
                proof {
                    assert(h + Seq::<Firing<T>>::empty() =~= h);
                }
                return ;
            },
        };
        let changed = v != self.cells[c].value;
        proof {
            reveal(obeys_concrete_eq);
            assert(values@ =~= dep_vals(net, st.vals, c as int));
            assert(produces(net[c as int].func.unwrap(), dep_vals(net, st.vals, c as int), v));
            assert(!blocked(net, st, c as int));
            lemma_produces_eval(net[c as int].func.unwrap(), dep_vals(net, st.vals, c as int), v);
            lemma_recompute::<T, F>(net, self@.owners, st, c as int, v);
        }
        self.cells[c].value = v;
        self.cells[c].resolved = true;
        let ghost st1 = Store { vals: st.vals.update(c as int, v), fresh: st.fresh.update(c as int,
            true) };
        proof {
            assert(self@.net =~= net);
            assert(self.store().vals =~= st1.vals);
            assert(self.store().fresh =~= st1.fresh);
            assert forall|x: int| 0 <= x < net.len() && #[trigger] st1.fresh[x]
                && net[x].func is Some implies produces(
                net[x].func.unwrap(),
                dep_vals(net, st1.vals, x),
                st1.vals[x],
            ) by {
                if x != c {
                    assert(st.fresh[x]);
                }
            }
        }
        if changed {
            self.execute_callbacks(c, v);
        }
        let ghost h1 = self@.history;
        let ns = self.cells[c].subscribers.len();
        let mut k: usize = 0;
        while k < ns
            invariant
                self.inv(),
                c < self.cells.len(),
                self.cells.len() == old(self).cells.len(),
                obeys_concrete_eq::<T>(),
                k <= ns,
                ns == net[c as int].subs.len(),
                self@.net == net,
                self@.owners == old(self)@.owners,
                coherent(net, self.store()),
                grounded(net, self.store()),
                resolve_subs(net, st1, c as int, 0).store == resolve_subs(
                    net,
                    self.store(),
                    c as int,
                    k as int,
                ).store,
                h1 + resolve_subs(net, st1, c as int, 0).fired == self@.history + resolve_subs(
                    net,
                    self.store(),
                    c as int,
                    k as int,
                ).fired,
            decreases ns - k,
        {
            let s = self.cells[c].subscribers[k];
            assert(s == net[c as int].subs[k as int]);
            let ghost cur = self.store();
            let ghost hk = self@.history;
            self.notify(s);
            proof {
                let first = resolve(net, cur, s as int);
                let rest = resolve_subs(net, first.store, c as int, k + 1);
                assert(resolve_subs(net, cur, c as int, k as int).fired == first.fired
                    + rest.fired);
                assert(hk + (first.fired + rest.fired) =~= (hk + first.fired) + rest.fired);
            }
            k += 1;
        }
        proof {
            let own = if v != st.vals[c as int] {
                announce(net[c as int].callbacks, v)
            } else {
                Seq::<Firing<T>>::empty()
            };
            let rest = resolve_subs(net, st1, c as int, 0);
            assert(h1 =~= h + own);
            assert(resolve_subs(net, self.store(), c as int, ns as int).fired
                =~= Seq::<Firing<T>>::empty());
            assert(self@.history =~= h1 + rest.fired);
            assert(h + (own + rest.fired) =~= (h + own) + rest.fired);
        }
    }

    /// Sets the value of the specified input cell and runs the batch that
    /// follows from it. Returns `false`, and does nothing, if the cell
    /// does not exist.
    ///
    /// The batch marks every cell downstream of the input stale and then
    /// resolves the subscribers of the input in registration order,
    /// depth-first. When it ends every compute cell is consistent with
    /// its dependencies, and each callback of a cell has been invoked
    /// once, with the cell's new value, if that value differs from the
    /// one before the batch, and not at all otherwise. Setting an input
    /// to the value it holds invokes nothing.
    ///
    /// `==` on `T` must be equality of values.
    pub fn set_value(&mut self, id: InputCellId, new_value: T) -> (ok: bool)
        requires
            old(self).wf(),
            obeys_concrete_eq::<T>(),
        ensures
            final(self).wf(),
            ok == old(self)@.holds(CellId::Input(id)),
            !ok ==> final(self)@ == old(self)@,
            final(self)@.net == old(self)@.net,
            final(self)@.owners == old(self)@.owners,
            ok ==> final(self)@.vals == batch(
                old(self)@.net,
                old(self)@.vals,
                id.slot() as int,
                new_value,
            ).store.vals,
            ok ==> final(self)@.history == old(self)@.history + batch(
                old(self)@.net,
                old(self)@.vals,
                id.slot() as int,
                new_value,
            ).fired,
            ok ==> final(self)@.vals[id.slot() as int] == new_value,
            ok ==> forall|x: int|
                0 <= x < old(self)@.net.len() && x != id.slot()
                    && (#[trigger] old(self)@.net[x]).func is None
                    ==> final(self)@.vals[x] == old(self)@.vals[x],
            settled(final(self)@.net, final(self)@.vals),
            ok ==> told(
                old(self)@.net,
                old(self)@.owners,
                old(self)@.vals,
                final(self)@.vals,
                final(self)@.history.skip(old(self)@.history.len() as int),
            ),
            ok && old(self)@.vals[id.slot() as int] == new_value ==> final(self)@.vals
                == old(self)@.vals
                && final(self)@.history == old(self)@.history,
    {
        if !self.has(CellId::Input(id)) {
            return false;
        }
        let a = id.index();
        let ghost net = self@.net;
        let ghost vals = self@.vals;
        let ghost h = self@.history;
        self.cells[a].value = new_value;
        proof {
            assert(self@.net =~= net);
            assert(self@.vals =~= vals.update(a as int, new_value));
        }
        self.mark(a);
        let ghost st0 = self.store();
        proof {
            assert(st0.vals =~= vals.update(a as int, new_value));
            assert(st0.fresh =~= marked(net, vals, a as int, new_value).fresh);
            assert(st0 == marked(net, vals, a as int, new_value));
            lemma_settled_balanced::<T, F>(net, self@.owners, vals);
            lemma_marked::<T, F>(net, self@.owners, vals, a as int, new_value);
            assert forall|x: int| 0 <= x < net.len() && #[trigger] st0.fresh[x]
                && net[x].func is Some implies produces(
                net[x].func.unwrap(),
                dep_vals(net, st0.vals, x),
                st0.vals[x],
            ) by {}
        }
        let ns = self.cells[a].subscribers.len();
        let mut k: usize = 0;
        while k < ns
            invariant
                self.inv(),
                a < self.cells.len(),
                obeys_concrete_eq::<T>(),
                k <= ns,
                ns == net[a as int].subs.len(),
                self@.net == net,
                self@.owners == old(self)@.owners,
                coherent(net, self.store()),
                grounded(net, self.store()),
                resolve_subs(net, st0, a as int, 0).store == resolve_subs(
                    net,
                    self.store(),
                    a as int,
                    k as int,
                ).store,
                h + resolve_subs(net, st0, a as int, 0).fired == self@.history + resolve_subs(
                    net,
                    self.store(),
                    a as int,
                    k as int,
                ).fired,
            decreases ns - k,
        {
            let s = self.cells[a].subscribers[k];
            assert(s == net[a as int].subs[k as int]);
            let ghost cur = self.store();
            let ghost hk = self@.history;
            self.notify(s);
            proof {
                let first = resolve(net, cur, s as int);
                let rest = resolve_subs(net, first.store, a as int, k + 1);
                assert(resolve_subs(net, cur, a as int, k as int).fired == first.fired
                    + rest.fired);
                assert(hk + (first.fired + rest.fired) =~= (hk + first.fired) + rest.fired);
            }
            k += 1;
        }
        proof {
            let r = batch(net, vals, a as int, new_value);
            assert(resolve_subs(net, self.store(), a as int, ns as int).fired
                =~= Seq::<Firing<T>>::empty());
            assert(self@.history =~= h + r.fired);
            lemma_batch::<T, F>(net, self@.owners, vals, a as int, new_value);
            assert(self.store() == r.store);
            assert forall|x: int| 0 <= x < net.len() && (#[trigger] net[x]).func is Some
                implies produces(
                net[x].func.unwrap(),
                dep_vals(net, self@.vals, x),
                self@.vals[x],
            ) by {
                assert(self.store().fresh[x]);
            }
            assert(self@.vals =~= r.store.vals);
            assert forall|i: int| 0 <= i < self.cells.len()
                implies (#[trigger] self.cells[i]).resolved by {
                assert(self.store().fresh[i]);
            }
            assert(self@.history.skip(h.len() as int) =~= r.fired);
            assert(net[a as int].func is None);
            if vals[a as int] == new_value {
                lemma_batch_idle::<T, F>(net, self@.owners, vals, a as int, new_value);
                assert(self@.history =~= h);
            }
        }
        true
    }

    /// Retrieves the current value of the cell, or `None` if the cell
    /// does not exist.
    pub fn value(&self, id: CellId) -> (r: Option<T>)
        ensures
            r == if self@.holds(id) {
                Some(self@.vals[id.slot() as int])
            } else {
                None
            },
    {
        if self.has(id) {
            Some(self.cells[id.index()].value)
        } else {
            None
        }
    }
}

} // verus!
