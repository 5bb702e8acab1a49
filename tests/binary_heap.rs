use itertools::Itertools;
use raytracer_core::binary_heap::BinaryHeap;
use raytracer_core::capped_heap::CappedHeap;

#[test]
fn binary_heap_test_simple() {
    let mut heap = BinaryHeap::new();
    heap.push(2);
    assert!(heap.is_heap());
    heap.push(1);
    assert!(heap.is_heap());
    heap.push(3);
    assert!(heap.is_heap());
    assert_eq!(heap.peek(), Some(&3));
    assert_eq!(heap.pop(), Some(3));
    assert!(heap.is_heap());
    assert_eq!(heap.peek(), Some(&2));
    assert_eq!(heap.pop(), Some(2));
    assert!(heap.is_heap());
    assert_eq!(heap.peek(), Some(&1));
    assert_eq!(heap.pop(), Some(1));
    assert!(heap.is_heap());
    assert_eq!(heap.peek(), None);
    assert_eq!(heap.pop(), None);
}

#[test]
fn test_exhaustive_push() {
    for len in 0..8 {
        for pushes in (0..len).permutations(len) {
            let mut heap = BinaryHeap::new();
            for push in pushes {
                heap.push(push);
                assert!(heap.is_heap());
            }
            assert!(heap.is_heap());
            for i in (0..len).rev() {
                assert_eq!(heap.pop(), Some(i));
            }
            assert_eq!(heap.pop(), None);
        }
    }
}

#[derive(Copy, Clone, Debug)]
enum Op {
    Push(usize),
    Pop,
    PushPop(usize),
}

struct Tester {
    test: BinaryHeap,
    control: std::collections::BinaryHeap<usize>,
}

impl Tester {
    fn new() -> Self {
        Tester { test: BinaryHeap::new(), control: std::collections::BinaryHeap::new() }
    }
    fn run_ops(&mut self, ops: &[Op]) {
        for op in ops {
            self.run_op(*op);
        }
    }
    fn run_op(&mut self, op: Op) {
        match op {
            Op::Push(x) => {
                self.test.push(x);
                self.control.push(x);
            }
            Op::Pop => {
                let actual = self.test.pop();
                let expected = self.control.pop();
                assert_eq!(actual, expected);
            }
            Op::PushPop(x) => {
                let actual = self.test.push_pop(x);
                self.control.push(x);
                let expected = self.control.pop().unwrap();
                assert_eq!(actual, expected);
            }
        }
    }
}

#[test]
fn test_exhaustive_push_and_pop() {
    for len in 0..4 {
        let ops: Vec<_> = (0..len).map(Op::Push).chain((0..len).map(|_| Op::Pop)).collect();
        for ops in ops.iter().cloned().permutations(len) {
            let mut tester = Tester::new();
            tester.run_ops(ops.as_slice());
        }
    }
}

#[test]
fn test_exhaustive_push_and_pop_and_push_pop() {
    for len in 0..5 {
        let ops: Vec<_> = (0..len)
            .map(Op::Push)
            .chain((0..len).map(Op::PushPop))
            .chain((0..len).map(|_| Op::Pop))
            .collect();
        for ops in ops.iter().cloned().permutations(len) {
            let mut tester = Tester::new();
            tester.run_ops(ops.as_slice());
        }
    }
}

#[test]
fn heap_sorted_vec_is_ascending_and_complete() {
    let mut heap = BinaryHeap::with_capacity(8);
    for x in [5, 1, 4, 1, 5, 9, 2, 6] {
        heap.push(x);
    }
    assert_eq!(heap.len(), 8);
    assert_eq!(heap.into_sorted_vec(), vec![1, 1, 2, 4, 5, 5, 6, 9]);
}

#[test]
fn push_pop_on_empty_returns_argument() {
    let mut heap = BinaryHeap::new();
    assert_eq!(heap.push_pop(7), 7);
    assert!(heap.is_empty());
    heap.push(3);
    assert_eq!(heap.push_pop(10), 10);
    assert_eq!(heap.push_pop(1), 3);
    assert_eq!(heap.peek(), Some(&1));
}

#[test]
fn capped_heap_keeps_smallest() {
    let mut heap = CappedHeap::with_capacity(3);
    for x in [8, 3, 9, 1, 7, 2] {
        heap.push(x);
        assert!(heap.len() <= 3);
    }
    assert_eq!(heap.capacity(), 3);
    assert_eq!(heap.peek(), Some(&3));
    assert_eq!(heap.into_sorted_vec(), vec![1, 2, 3]);
}

#[test]
fn capped_heap_of_zero_keeps_nothing() {
    let mut heap = CappedHeap::with_capacity(0);
    heap.push(4);
    assert_eq!(heap.len(), 0);
    assert_eq!(heap.peek(), None);
}
