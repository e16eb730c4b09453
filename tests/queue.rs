use alds::queue::{compute, input_queue, ArrayQueue, Process, Queue, ScheduleError, VecQueue};
use alds::stack::{PopError, PushError};

#[test]
fn test_vec_queue() {
    let mut q = VecQueue::new(3);
    assert!(q.enqueue(1).is_ok());
    assert!(q.enqueue(10).is_ok());
    assert!(q.enqueue(100).is_ok());

    assert!(q.is_full());
    assert_eq!(Ok(1), q.dequeue());
    assert_eq!(Ok(10), q.dequeue());
    assert_eq!(Ok(100), q.dequeue());
    assert!(q.is_empty());
}

#[test]
fn test_array_queue() {
    let mut q = ArrayQueue::new();
    assert!(q.enqueue(1).is_ok());
    assert!(q.enqueue(10).is_ok());
    assert!(q.enqueue(100).is_ok());

    assert!(!q.is_full());
    assert_eq!(Ok(1), q.dequeue());
    assert_eq!(Ok(10), q.dequeue());
    assert_eq!(Ok(100), q.dequeue());
    assert!(q.is_empty());
}

#[test]
fn queue_test1() {
    let input = ["5 100", "p1 150", "p2 80", "p3 200", "p4 350", "p5 20"].join("\n");

    let result = input_queue(&input);

    assert!(result.is_ok());
    let output = result.unwrap();

    assert_eq!(
        output,
        vec!["p2 180", "p5 400", "p1 450", "p3 550", "p4 800", ""].join("\n")
    )
}

fn scenario() -> Vec<Process> {
    vec![
        Process::new("p1".to_string(), 150),
        Process::new("p2".to_string(), 80),
        Process::new("p3".to_string(), 200),
        Process::new("p4".to_string(), 350),
        Process::new("p5".to_string(), 20),
    ]
}

fn trace(done: &[Process]) -> Vec<(String, usize)> {
    done.iter().map(|p| (p.name.clone(), p.elapsed)).collect()
}

fn expected() -> Vec<(String, usize)> {
    vec![
        ("p2".to_string(), 180),
        ("p5".to_string(), 400),
        ("p1".to_string(), 450),
        ("p3".to_string(), 550),
        ("p4".to_string(), 800),
    ]
}

#[test]
fn scheduler_on_vec_queue() {
    let mut q = VecQueue::new(5);
    for p in scenario() {
        assert!(q.enqueue(p).is_ok());
    }
    let done = compute(&mut q, 100).unwrap();
    assert_eq!(trace(&done), expected());
    assert!(q.is_empty());
}

#[test]
fn scheduler_on_array_queue() {
    let mut q = ArrayQueue::new();
    for p in scenario() {
        assert!(q.enqueue(p).is_ok());
    }
    let done = compute(&mut q, 100).unwrap();
    assert_eq!(trace(&done), expected());
}

#[test]
fn scheduler_is_repeatable() {
    let run = || {
        let mut q = VecQueue::new(5);
        for p in scenario() {
            assert!(q.enqueue(p).is_ok());
        }
        compute(&mut q, 100).unwrap()
    };
    assert_eq!(run(), run());
    let input = "5 100\np1 150\np2 80\np3 200\np4 350\np5 20";
    assert_eq!(input_queue(input), input_queue(input));
}

#[test]
fn scheduler_reports_full_array_queue() {
    let mut q = ArrayQueue::new();
    for i in 0..256usize {
        assert!(q.enqueue(Process::new(format!("p{}", i), 2)).is_ok());
    }
    assert!(q.is_full());
    assert_eq!(compute(&mut q, 1), Err(PushError::IsFull));
}

#[test]
fn finished_process_keeps_its_last_remaining_time() {
    let mut q = VecQueue::new(1);
    assert!(q.enqueue(Process::new("a".to_string(), 250)).is_ok());
    let done = compute(&mut q, 100).unwrap();
    assert_eq!(done.len(), 1);
    assert_eq!(done[0].time, 50);
    assert_eq!(done[0].elapsed, 250);
}

#[test]
fn zero_time_process_finishes_at_current_clock() {
    let mut q = VecQueue::new(2);
    assert!(q.enqueue(Process::new("a".to_string(), 30)).is_ok());
    assert!(q.enqueue(Process::new("b".to_string(), 0)).is_ok());
    let done = compute(&mut q, 10).unwrap();
    assert_eq!(trace(&done), vec![("b".to_string(), 10), ("a".to_string(), 30)]);
}

#[test]
fn fifo_order_with_interleaving() {
    let mut q = ArrayQueue::new();
    assert!(q.enqueue('a').is_ok());
    assert!(q.enqueue('b').is_ok());
    assert_eq!(q.dequeue(), Ok('a'));
    assert!(q.enqueue('c').is_ok());
    assert_eq!(q.len(), 2);
    assert_eq!(q.dequeue(), Ok('b'));
    assert_eq!(q.dequeue(), Ok('c'));
    assert_eq!(q.dequeue(), Err(PopError::IsEmpty));
}

#[test]
fn array_queue_capacity_is_lifetime() {
    let mut q = ArrayQueue::new();
    for i in 0..256 {
        assert!(q.enqueue(i).is_ok());
        assert_eq!(q.dequeue(), Ok(i));
    }
    assert!(q.is_empty());
    assert!(q.is_full());
    assert_eq!(q.enqueue(0), Err(PushError::IsFull));
    assert_eq!(q.len(), 0);
}

#[test]
fn vec_queue_frees_a_place_on_dequeue() {
    let mut q = VecQueue::new(2);
    assert!(q.enqueue(1).is_ok());
    assert!(q.enqueue(2).is_ok());
    assert_eq!(q.enqueue(3), Err(PushError::IsFull));
    assert_eq!(q.dequeue(), Ok(1));
    assert!(!q.is_full());
    assert!(q.enqueue(3).is_ok());
    assert_eq!(q.len(), 2);
}

#[test]
fn empty_queue_dequeue_fails() {
    let mut q: VecQueue<u32> = VecQueue::new(4);
    assert_eq!(q.dequeue(), Err(PopError::IsEmpty));
    assert!(q.is_empty());
    assert_eq!(q.len(), 0);
}

#[test]
fn schedule_input_errors() {
    assert_eq!(input_queue(""), Err(ScheduleError::Malformed));
    assert_eq!(input_queue("1 0\na 5"), Err(ScheduleError::Malformed));
    assert_eq!(input_queue("1 10\na"), Err(ScheduleError::Malformed));
    assert_eq!(input_queue("1 10\na x"), Err(ScheduleError::Malformed));
    assert_eq!(input_queue("x 10\na 5"), Err(ScheduleError::Malformed));
    let big = format!("2 10\na {}\nb 1", usize::MAX);
    assert_eq!(input_queue(&big), Err(ScheduleError::Overflow));
}

#[test]
fn schedule_with_no_processes() {
    assert_eq!(input_queue("0 10"), Ok(String::new()));
}
