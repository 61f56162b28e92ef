use react::{
    BoxedReactor, CallbackId, CellId, ComputeCellId, InputCellId, RemoveCallbackError,
};
use std::cell::RefCell;
use std::rc::Rc;

type Callback = Box<dyn FnMut(i32)>;
type Log = Rc<RefCell<Vec<(&'static str, i32)>>>;

fn reactor() -> BoxedReactor<'static, i32> {
    BoxedReactor::new()
}

fn recorder(log: &Log, name: &'static str) -> Callback {
    let log = log.clone();
    Box::new(move |v| log.borrow_mut().push((name, v)))
}

struct Diamond {
    r: BoxedReactor<'static, i32>,
    a: InputCellId,
    b: ComputeCellId,
    c: ComputeCellId,
    d: ComputeCellId,
}

fn diamond() -> Diamond {
    let mut r = reactor();
    let a = r.create_input(1);
    let b = r.create_compute(&[CellId::Input(a)], Box::new(|v| v[0] + 1)).unwrap();
    let c = r.create_compute(&[CellId::Input(a)], Box::new(|v| v[0] + 2)).unwrap();
    let d = r
        .create_compute(&[CellId::Compute(b), CellId::Compute(c)], Box::new(|v| v[0] + v[1]))
        .unwrap();
    Diamond { r, a, b, c, d }
}

#[test]
fn linear_chain_fires_once_with_new_value() {
    let log: Log = Rc::default();
    let mut r = reactor();
    let a = r.create_input(1);
    let b = r.create_compute(&[CellId::Input(a)], Box::new(|v| v[0] * 2)).unwrap();
    assert_eq!(r.value(CellId::Compute(b)), Some(2));
    assert!(r.add_callback(b, recorder(&log, "b")).is_some());
    assert!(r.set_value(a, 5));
    assert_eq!(r.value(CellId::Compute(b)), Some(10));
    assert_eq!(*log.borrow(), vec![("b", 10)]);
}

#[test]
fn diamond_recomputes_and_fires_once() {
    let log: Log = Rc::default();
    let mut g = diamond();
    assert_eq!(g.r.value(CellId::Compute(g.d)), Some(5));
    g.r.add_callback(g.d, recorder(&log, "d")).unwrap();
    assert!(g.r.set_value(g.a, 2));
    assert_eq!(g.r.value(CellId::Compute(g.b)), Some(3));
    assert_eq!(g.r.value(CellId::Compute(g.c)), Some(4));
    assert_eq!(g.r.value(CellId::Compute(g.d)), Some(7));
    assert_eq!(*log.borrow(), vec![("d", 7)]);
}

#[test]
fn removed_callback_is_silent() {
    let log: Log = Rc::default();
    let mut g = diamond();
    let cb = g.r.add_callback(g.d, recorder(&log, "d")).unwrap();
    assert_eq!(g.r.remove_callback(g.d, cb), Ok(()));
    assert!(g.r.set_value(g.a, 3));
    assert!(log.borrow().is_empty());
    assert_eq!(g.r.value(CellId::Compute(g.d)), Some(9));
}

#[test]
fn setting_the_same_value_fires_nothing() {
    let log: Log = Rc::default();
    let mut g = diamond();
    g.r.add_callback(g.b, recorder(&log, "b")).unwrap();
    g.r.add_callback(g.c, recorder(&log, "c")).unwrap();
    g.r.add_callback(g.d, recorder(&log, "d")).unwrap();
    assert!(g.r.set_value(g.a, 1));
    assert!(log.borrow().is_empty());
    assert_eq!(g.r.value(CellId::Input(g.a)), Some(1));
    assert_eq!(g.r.value(CellId::Compute(g.d)), Some(5));
}

#[test]
fn every_cell_is_consistent_after_each_batch() {
    let mut g = diamond();
    for x in [7, -3, 0, 7, 100] {
        assert!(g.r.set_value(g.a, x));
        let b = g.r.value(CellId::Compute(g.b)).unwrap();
        let c = g.r.value(CellId::Compute(g.c)).unwrap();
        assert_eq!(b, x + 1);
        assert_eq!(c, x + 2);
        assert_eq!(g.r.value(CellId::Compute(g.d)), Some(b + c));
    }
}

#[test]
fn callbacks_fire_only_for_cells_that_changed() {
    let log: Log = Rc::default();
    let mut r = reactor();
    let a = r.create_input(1);
    let small = r
        .create_compute(&[CellId::Input(a)], Box::new(|v| if v[0] < 3 { 111 } else { 222 }))
        .unwrap();
    let plus = r.create_compute(&[CellId::Input(a)], Box::new(|v| v[0] + 1)).unwrap();
    r.add_callback(small, recorder(&log, "small")).unwrap();
    r.add_callback(plus, recorder(&log, "plus")).unwrap();
    assert!(r.set_value(a, 2));
    assert_eq!(*log.borrow(), vec![("plus", 3)]);
    log.borrow_mut().clear();
    assert!(r.set_value(a, 4));
    assert_eq!(*log.borrow(), vec![("small", 222), ("plus", 5)]);
}

#[test]
fn unchanged_cell_still_lets_its_subscribers_resolve() {
    // half does not change when a goes from 2 to 3, but sum reads both
    // half and a, and has to be recomputed from the new a.
    let log: Log = Rc::default();
    let mut r = reactor();
    let a = r.create_input(2);
    let half = r.create_compute(&[CellId::Input(a)], Box::new(|v| v[0] / 2)).unwrap();
    let sum = r
        .create_compute(&[CellId::Compute(half), CellId::Input(a)], Box::new(|v| v[0] + v[1]))
        .unwrap();
    let top = r.create_compute(&[CellId::Compute(sum)], Box::new(|v| v[0] * 10)).unwrap();
    r.add_callback(half, recorder(&log, "half")).unwrap();
    r.add_callback(sum, recorder(&log, "sum")).unwrap();
    r.add_callback(top, recorder(&log, "top")).unwrap();
    assert!(r.set_value(a, 3));
    assert_eq!(r.value(CellId::Compute(half)), Some(1));
    assert_eq!(r.value(CellId::Compute(sum)), Some(4));
    assert_eq!(r.value(CellId::Compute(top)), Some(40));
    assert_eq!(*log.borrow(), vec![("sum", 4), ("top", 40)]);
    // A later batch still reaches every cell.
    log.borrow_mut().clear();
    assert!(r.set_value(a, 10));
    assert_eq!(r.value(CellId::Compute(top)), Some(150));
    assert_eq!(*log.borrow(), vec![("half", 5), ("sum", 15), ("top", 150)]);
}

#[test]
fn callbacks_of_one_cell_fire_in_registration_order() {
    let log: Log = Rc::default();
    let mut r = reactor();
    let a = r.create_input(0);
    let b = r.create_compute(&[CellId::Input(a)], Box::new(|v| v[0] + 1)).unwrap();
    let first = r.add_callback(b, recorder(&log, "first")).unwrap();
    r.add_callback(b, recorder(&log, "second")).unwrap();
    r.add_callback(b, recorder(&log, "third")).unwrap();
    assert!(r.set_value(a, 1));
    assert_eq!(*log.borrow(), vec![("first", 2), ("second", 2), ("third", 2)]);
    log.borrow_mut().clear();
    assert_eq!(r.remove_callback(b, first), Ok(()));
    assert!(r.set_value(a, 2));
    assert_eq!(*log.borrow(), vec![("second", 3), ("third", 3)]);
}

#[test]
fn cells_fire_depth_first_in_subscription_order() {
    let log: Log = Rc::default();
    let mut r = reactor();
    let a = r.create_input(0);
    let left = r.create_compute(&[CellId::Input(a)], Box::new(|v| v[0] + 1)).unwrap();
    let right = r.create_compute(&[CellId::Input(a)], Box::new(|v| v[0] + 2)).unwrap();
    let below_left = r.create_compute(&[CellId::Compute(left)], Box::new(|v| v[0] * 2)).unwrap();
    let join = r
        .create_compute(&[CellId::Compute(left), CellId::Compute(right)], Box::new(|v| v[0] * v[1]))
        .unwrap();
    r.add_callback(join, recorder(&log, "join")).unwrap();
    r.add_callback(right, recorder(&log, "right")).unwrap();
    r.add_callback(below_left, recorder(&log, "below_left")).unwrap();
    r.add_callback(left, recorder(&log, "left")).unwrap();
    assert!(r.set_value(a, 1));
    assert_eq!(
        *log.borrow(),
        vec![("left", 2), ("below_left", 4), ("right", 3), ("join", 6)]
    );
}

#[test]
fn a_dependency_listed_twice_changes_nothing_observable() {
    let log: Log = Rc::default();
    let mut r = reactor();
    let a = r.create_input(1);
    let twice = r
        .create_compute(&[CellId::Input(a), CellId::Input(a)], Box::new(|v| v[0] + v[1]))
        .unwrap();
    let after = r.create_compute(&[CellId::Compute(twice)], Box::new(|v| v[0] + 1)).unwrap();
    r.add_callback(twice, recorder(&log, "twice")).unwrap();
    r.add_callback(after, recorder(&log, "after")).unwrap();
    assert!(r.set_value(a, 4));
    assert_eq!(r.value(CellId::Compute(twice)), Some(8));
    assert_eq!(r.value(CellId::Compute(after)), Some(9));
    assert_eq!(*log.borrow(), vec![("twice", 8), ("after", 9)]);
}

#[test]
fn create_compute_with_a_missing_dependency_changes_nothing() {
    let log: Log = Rc::default();
    let mut g = diamond();
    g.r.add_callback(g.d, recorder(&log, "d")).unwrap();
    let mut other = reactor();
    for _ in 0..10 {
        other.create_input(0);
    }
    let missing = CellId::Input(other.create_input(0));
    let also_missing = CellId::Compute(
        other.create_compute(&[missing], Box::new(|v| v[0])).unwrap(),
    );
    let err = g.r.create_compute(
        &[CellId::Input(g.a), CellId::Compute(g.b), missing, also_missing],
        Box::new(|v| v[0]),
    );
    assert_eq!(err, Err(missing));
    // No cell was added: the next cell takes the slot after d.
    let next = g.r.create_input(0);
    assert_eq!(g.r.value(CellId::Input(next)), Some(0));
    let mut same = diamond();
    assert_eq!(same.r.create_input(0), next);
    // No subscriber was added: a batch fires d once, as before.
    assert!(g.r.set_value(g.a, 2));
    assert_eq!(*log.borrow(), vec![("d", 7)]);
}

#[test]
fn an_id_of_the_wrong_kind_names_no_cell() {
    let mut r = reactor();
    let a = r.create_input(1);
    let b = r.create_compute(&[CellId::Input(a)], Box::new(|v| v[0])).unwrap();
    let mut other = reactor();
    let input_in_slot_of_b = {
        other.create_input(0);
        other.create_input(0)
    };
    let compute_in_slot_of_a = other.create_compute(&[], Box::new(|_| 0)).unwrap();
    assert_eq!(format!("{:?}", input_in_slot_of_b), "InputCellId(1)");
    assert_eq!(format!("{:?}", compute_in_slot_of_a), "ComputeCellId(2)");
    let mut third = reactor();
    let compute_zero = third.create_compute(&[], Box::new(|_| 0)).unwrap();
    assert_eq!(r.value(CellId::Input(input_in_slot_of_b)), None);
    assert_eq!(r.value(CellId::Compute(compute_zero)), None);
    assert!(!r.set_value(input_in_slot_of_b, 3));
    assert_eq!(r.value(CellId::Compute(b)), Some(1));
    assert!(r.add_callback(compute_zero, Box::new(|_| ())).is_none());
    assert_eq!(
        r.create_compute(&[CellId::Compute(compute_zero)], Box::new(|_| 0)),
        Err(CellId::Compute(compute_zero))
    );
}

#[test]
fn value_of_an_unknown_cell_is_none() {
    let mut other = reactor();
    let a = other.create_input(1);
    let r = reactor();
    assert_eq!(r.value(CellId::Input(a)), None);
}

#[test]
fn set_value_of_an_unknown_cell_is_false() {
    let mut other = reactor();
    let a = other.create_input(1);
    let mut r = reactor();
    assert!(!r.set_value(a, 2));
}

#[test]
fn remove_callback_reports_what_is_missing() {
    let mut r = reactor();
    let a = r.create_input(1);
    let b = r.create_compute(&[CellId::Input(a)], Box::new(|v| v[0])).unwrap();
    let c = r.create_compute(&[CellId::Input(a)], Box::new(|v| v[0])).unwrap();
    let cb: CallbackId = r.add_callback(b, Box::new(|_| ())).unwrap();
    let mut other = reactor();
    for _ in 0..5 {
        other.create_input(0);
    }
    let nowhere = other.create_compute(&[], Box::new(|_| 0)).unwrap();
    assert_eq!(r.remove_callback(nowhere, cb), Err(RemoveCallbackError::NonexistentCell));
    // registered on b, not on c
    assert_eq!(r.remove_callback(c, cb), Err(RemoveCallbackError::NonexistentCallback));
    assert_eq!(r.remove_callback(b, cb), Ok(()));
    assert_eq!(r.remove_callback(b, cb), Err(RemoveCallbackError::NonexistentCallback));
}

#[test]
fn compute_cells_take_their_dependencies_in_the_order_given() {
    let mut r = reactor();
    let one = r.create_input(1);
    let two = r.create_input(2);
    let out = r
        .create_compute(&[CellId::Input(one), CellId::Input(two)], Box::new(|v| v[0] + v[1] * 10))
        .unwrap();
    assert_eq!(r.value(CellId::Compute(out)), Some(21));
    let swapped = r
        .create_compute(&[CellId::Input(two), CellId::Input(one)], Box::new(|v| v[0] + v[1] * 10))
        .unwrap();
    assert_eq!(r.value(CellId::Compute(swapped)), Some(12));
}

#[test]
fn a_value_that_returns_to_its_old_self_within_one_batch_fires_nothing() {
    let log: Log = Rc::default();
    let mut r = reactor();
    let a = r.create_input(1);
    let plus = r.create_compute(&[CellId::Input(a)], Box::new(|v| v[0] + 1)).unwrap();
    let minus = r.create_compute(&[CellId::Input(a)], Box::new(|v| v[0] - 1)).unwrap();
    let always_two = r
        .create_compute(&[CellId::Compute(plus), CellId::Compute(minus)], Box::new(|v| v[0] - v[1]))
        .unwrap();
    r.add_callback(always_two, recorder(&log, "always_two")).unwrap();
    for x in 2..6 {
        assert!(r.set_value(a, x));
    }
    assert!(log.borrow().is_empty());
    assert_eq!(r.value(CellId::Compute(always_two)), Some(2));
}
