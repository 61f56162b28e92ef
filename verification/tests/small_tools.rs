use react::barrier::{arrive, depart, must_wait, BarrierState, Departure};
use react::pool::Scheduler;
use react::puzzle::{
    all_operations, block_range, calculate, convert_combination, expression_if, expressions, fits, push_number,
    solutions, Operation,
};
use react::record::{first_nul, kind_of, message_text, Kind};
use react::ring::{new_buffer, BufferFull, BufferHead, RingHeader};
use react::shell::{child_state, kill_requested, prompts, route, ChildState, LineFrom, LineTo, LoopState};
use react::slug::{remove_diacritic, slugify, slugify_lowered};

#[test]
fn slug_of_plain_text() {
    assert_eq!(slugify("Hello, World!".to_string()), "hello-world-");
    assert_eq!(slugify("".to_string()), "");
    assert_eq!(slugify("--a  b--".to_string()), "-a-b-");
    assert_eq!(slugify("x_1".to_string()), "x-1");
}

#[test]
fn slug_lowers_before_it_maps() {
    assert_eq!(slugify("ÀÉÎ".to_string()), "aei");
    assert_eq!(slugify("ABC".to_string()), "abc");
    // without lowering, capitals are not letters of a slug
    assert_eq!(slugify_lowered("ABC"), "-");
}

#[test]
fn accents_are_removed_letter_by_letter() {
    let accented = "àáâäæãåāăąçćčđďèéêëēėęěğǵḧîïíīįìıİłḿñńǹňôöòóœøōõőṕŕřßśšşșťțûüùúūǘůűųẃẍÿýžźż";
    let plain = "aaaaaaaaaacccddeeeeeeeegghiiiiiiiilmnnnnoooooooooprrsssssttuuuuuuuuuwxyyzzz";
    assert_eq!(accented.chars().map(remove_diacritic).collect::<String>(), plain);
    assert_eq!(remove_diacritic('a'), 'a');
    assert_eq!(remove_diacritic('€'), '€');
    assert_eq!(slugify_lowered("crème brûlée"), "creme-brulee");
    assert_eq!(slugify_lowered("ß"), "s");
}

#[test]
fn numbers_are_written_in_decimal() {
    for n in [0, 7, 10, 99, 100, -1, -10, 12345, i32::MAX, i32::MIN] {
        let mut s = String::from(">");
        push_number(&mut s, n);
        assert_eq!(s, format!(">{n}"));
    }
}

#[test]
fn operations_are_applied_from_left_to_right() {
    let (sum, sub, div, mul) = (Operation::Sum, Operation::Sub, Operation::Div, Operation::Mul);
    assert_eq!(calculate(&vec![1, 2, 3], &vec![&sum, &mul]), Some(9));
    assert_eq!(calculate(&vec![7, 2], &vec![&div]), Some(3));
    assert_eq!(calculate(&vec![-7, 2], &vec![&div]), Some(-3));
    assert_eq!(calculate(&vec![7, -2], &vec![&div]), Some(-3));
    assert_eq!(calculate(&vec![-7, -2], &vec![&div]), Some(3));
    assert_eq!(calculate(&vec![7, 0, 5], &vec![&div, &sum]), None);
    assert_eq!(calculate(&vec![5, 8], &vec![&sub]), Some(-3));
    assert_eq!(calculate(&vec![], &vec![&sum]), None);
    assert_eq!(calculate(&vec![4], &vec![]), Some(4));
    // operations or numbers that have no partner are left out
    assert_eq!(calculate(&vec![4, 5, 6], &vec![&sum]), Some(9));
    assert_eq!(calculate(&vec![4, 5], &vec![&sum, &mul, &mul]), Some(9));
}

#[test]
fn fits_tells_when_a_value_leaves_the_range() {
    let (sum, sub, div, mul) = (Operation::Sum, Operation::Sub, Operation::Div, Operation::Mul);
    assert!(fits(&vec![1, 2, 3], &vec![&sum, &mul]));
    assert!(!fits(&vec![i32::MAX, 1], &vec![&sum]));
    assert!(!fits(&vec![i32::MIN, 1], &vec![&sub]));
    assert!(!fits(&vec![65536, 65536], &vec![&mul]));
    assert!(!fits(&vec![i32::MIN, -1], &vec![&div]));
    assert!(fits(&vec![i32::MIN, 1], &vec![&div]));
    // the evaluation ends at a division by zero
    assert!(fits(&vec![i32::MAX, 0, i32::MAX], &vec![&div, &sum]));
    assert!(fits(&vec![], &vec![]));
}

#[test]
fn combinations_are_written_with_signs_between() {
    let (sum, sub, div, mul) = (Operation::Sum, Operation::Sub, Operation::Div, Operation::Mul);
    assert_eq!(convert_combination(&vec![1, -2, 3, 4, 5], &vec![&sum, &sub, &div, &mul]), "1 + -2 - 3 / 4 * 5");
    assert_eq!(convert_combination(&vec![10], &vec![]), "10");
    assert_eq!(sum.to_string(), "+");
    assert_eq!(sub.to_string(), "-");
    assert_eq!(div.to_string(), "/");
    assert_eq!(mul.to_string(), "*");
    assert_eq!(expression_if(&vec![4, 6], &vec![&sum], 10).as_deref(), Some("4 + 6"));
    assert_eq!(expression_if(&vec![4, 6], &vec![&mul], 10), None);
    assert_eq!(expression_if(&vec![4, 0], &vec![&div], 10), None);
}

#[test]
fn every_choice_of_operations_is_tried_in_order() {
    let ops = all_operations();
    assert_eq!(ops, [Operation::Sum, Operation::Sub, Operation::Div, Operation::Mul]);
    let found = expressions(&vec![2, 2, 2], &ops, 2).unwrap();
    assert_eq!(
        found,
        ["2 + 2 - 2", "2 + 2 / 2", "2 - 2 + 2", "2 / 2 * 2", "2 * 2 - 2", "2 * 2 / 2"]
    );
    let found = expressions(&vec![5, 5], &ops, 10).unwrap();
    assert_eq!(found, ["5 + 5"]);
    assert_eq!(expressions(&vec![10], &ops, 10).unwrap(), ["10"]);
    assert_eq!(expressions(&vec![9], &ops, 10).unwrap(), Vec::<String>::new());
    assert_eq!(expressions(&vec![1, 2], &vec![], 3).unwrap(), Vec::<String>::new());
    assert_eq!(expressions(&vec![i32::MAX, 2], &ops, 0), None);
}

#[test]
fn every_ordering_of_the_numbers_is_tried() {
    let ops = all_operations();
    let found = solutions(&vec![2, 5], &ops, 10).unwrap();
    assert_eq!(found, ["2 * 5", "5 * 2"]);
    let found = solutions(&vec![7, 3, 1], &ops, 10).unwrap();
    assert_eq!(
        found,
        [
            "7 + 3 / 1", "7 + 3 * 1", "7 / 1 + 3", "7 * 1 + 3", "3 + 7 / 1", "3 + 7 * 1",
            "3 / 1 + 7", "3 * 1 + 7", "1 * 7 + 3", "1 * 3 + 7"
        ]
    );
    // equal numbers are told apart by their place
    assert_eq!(solutions(&vec![5, 5], &ops, 10).unwrap(), ["5 + 5", "5 + 5"]);
    assert_eq!(solutions(&vec![i32::MIN, 3], &ops, 10), None);
}

#[test]
fn ring_keeps_ten_items_in_order() {
    let mut ring = BufferHead::default();
    assert_eq!(ring.read_data(), Vec::<u8>::new());
    for i in 0..10u8 {
        assert_eq!(ring.write_data(i), Ok(()));
    }
    assert_eq!(ring.write_data(10), Err(BufferFull));
    assert_eq!(ring.read_data(), (0..10).collect::<Vec<u8>>());
    assert_eq!(ring.write_data(11), Ok(()));
    assert_eq!(ring.read_data(), vec![11]);
    assert_eq!(ring.read_data(), vec![]);
}

#[test]
fn reader_gets_what_the_writer_put() {
    let (mut reader, mut writer) = new_buffer::<u32>();
    assert_eq!(reader.read_data(), Some(vec![]));
    for i in 0..12 {
        assert_eq!(writer.write_data(i).is_ok(), i < 10);
    }
    assert_eq!(reader.read_data(), Some((0..10).collect()));
    assert_eq!(writer.write_data(7), Ok(()));
    assert_eq!(reader.read_data(), Some(vec![7]));
    let mut moved = writer;
    for i in 0..5 {
        moved.write_data(i).unwrap();
    }
    assert_eq!(reader.read_data(), Some(vec![0, 1, 2, 3, 4]));
}

#[test]
fn header_of_a_ring_in_a_file() {
    let head = RingHeader::default();
    assert_eq!(head, RingHeader { len: 0, index: 0, capacity: 10 });
    let (slot, head) = head.write_slot().unwrap();
    assert_eq!((slot, head), (0, RingHeader { len: 1, index: 0, capacity: 10 }));
    let wrapped = RingHeader { len: 3, index: 8, capacity: 10 };
    assert_eq!(wrapped.write_slot(), Some((1, RingHeader { len: 4, index: 8, capacity: 10 })));
    assert_eq!(wrapped.read_slots(), vec![8, 9, 0]);
    assert_eq!(RingHeader { len: 10, index: 0, capacity: 10 }.write_slot(), None);
    assert_eq!(RingHeader { len: 2, index: 13, capacity: 10 }.read_slots(), vec![3, 4]);
    assert_eq!(head.read_slots(), vec![0]);
    assert_eq!(RingHeader::default().read_slots(), Vec::<u32>::new());
    assert_eq!(RingHeader::offset(0, 48, 12), 12);
    assert_eq!(RingHeader::offset(9, 48, 12), 444);
}

#[test]
fn barrier_for_three_threads() {
    assert!(must_wait(BarrierState::Closed));
    assert!(!must_wait(BarrierState::Open));
    assert_eq!(arrive(0, 3), (1, true));
    assert_eq!(arrive(1, 3), (2, true));
    assert_eq!(arrive(2, 3), (3, false));
    assert_eq!(depart(3, 3), Departure { waiting: 2, close: true, open: false });
    assert_eq!(depart(2, 3), Departure { waiting: 1, close: false, open: false });
    assert_eq!(depart(1, 3), Departure { waiting: 0, close: false, open: true });
    assert_eq!(arrive(0, 1), (1, false));
    assert_eq!(depart(1, 1), Departure { waiting: 0, close: true, open: true });
}

#[test]
fn jobs_go_to_ready_workers_in_order() {
    let mut s: Scheduler<&str> = Scheduler::new(3);
    assert!(s.dispatch().is_empty());
    s.job_arrived("a");
    s.job_arrived("b");
    assert_eq!(s.dispatch(), vec![(0, "a"), (1, "b")]);
    s.job_arrived("c");
    s.job_arrived("d");
    s.job_arrived("e");
    assert_eq!(s.dispatch(), vec![(2, "c")]);
    assert!(s.dispatch().is_empty());
    assert!(s.job_finished(1));
    assert!(!s.job_finished(3));
    assert_eq!(s.dispatch(), vec![(1, "d")]);
    assert!(s.job_finished(0));
    assert!(s.job_finished(2));
    assert_eq!(s.dispatch(), vec![(0, "e")]);
    assert!(s.dispatch().is_empty());
}

#[test]
fn shell_routes_lines() {
    assert_eq!(child_state(0), ChildState::Killed);
    assert_eq!(child_state(1), ChildState::Working);
    assert!(kill_requested(&[1, b'\n']));
    assert!(!kill_requested(b"1\n"));
    assert!(!kill_requested(&[]));
    assert!(prompts(LoopState::Prompting));
    assert!(!prompts(LoopState::ProgRunning));
    assert_eq!(route(LineFrom::Console, ChildState::Working), (LoopState::ProgRunning, LineTo::Child));
    assert_eq!(route(LineFrom::Child, ChildState::Working), (LoopState::ProgRunning, LineTo::Screen));
    assert_eq!(route(LineFrom::Child, ChildState::Killed), (LoopState::Prompting, LineTo::Screen));
}

#[test]
fn records_by_kind() {
    assert_eq!(kind_of(1), Kind::Value);
    assert_eq!(kind_of(2), Kind::MValue);
    assert_eq!(kind_of(3), Kind::Message);
    assert_eq!(first_nul(b"abc\0def\0"), Some(3));
    assert_eq!(first_nul(b"abc"), None);
    assert_eq!(first_nul(b""), None);
    assert_eq!(message_text(b"hello\0world\0\0"), "hello");
    assert_eq!(message_text(b"\0"), "");
    assert_eq!(message_text("più\0".as_bytes()), "più");
}

#[test]
fn blocks_share_the_work_out() {
    assert_eq!(block_range(10, 3, 0), (0, 3));
    assert_eq!(block_range(10, 3, 1), (3, 6));
    assert_eq!(block_range(10, 3, 2), (6, 10));
    assert_eq!(block_range(2, 5, 0), (0, 0));
    assert_eq!(block_range(2, 5, 4), (0, 2));
    assert_eq!(block_range(0, 1, 0), (0, 0));
    for total in 0..40 {
        for nthread in 1..9 {
            let mut next = 0;
            for thread in 0..nthread {
                let (start, end) = block_range(total, nthread, thread);
                assert_eq!(start, next);
                assert!(start <= end);
                next = end;
            }
            assert_eq!(next, total);
        }
    }
}
