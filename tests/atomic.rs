use proxy::epoch::{Global, Local};
use proxy::ring::AtomicBuffer;
use proxy::stack::{AtomicStack, StackCollector};

#[test]
fn buffer_vec_deque_push() {
    let mut buffer: AtomicBuffer<usize, 128> = AtomicBuffer::new();
    buffer.push(1001_usize);
    assert_eq!(buffer.len(), 1);
}

#[test]
fn buffer_vec_deque() {
    let mut buffer: AtomicBuffer<usize, 128> = AtomicBuffer::new();
    buffer.push(1001_usize);
    buffer.push(1002_usize);
    buffer.push(1003_usize);
    assert_eq!(buffer.pop().unwrap(), 1001_usize);
    assert_eq!(buffer.pop().unwrap(), 1002_usize);
    assert_eq!(buffer.pop().unwrap(), 1003_usize);
}

#[test]
fn buffer_wraps_around_its_slots() {
    let mut buffer: AtomicBuffer<usize, 4> = AtomicBuffer::new();
    for round in 0..10_usize {
        buffer.push(round);
        buffer.push(round + 100);
        assert_eq!(buffer.pop(), Some(round));
        assert_eq!(buffer.pop(), Some(round + 100));
    }
    assert_eq!(buffer.pop(), None);
}

#[test]
fn buffer_fills_to_capacity_and_drains_in_order() {
    let mut buffer: AtomicBuffer<usize, 3> = AtomicBuffer::new();
    buffer.push(7);
    buffer.pop();
    buffer.push(1);
    buffer.push(2);
    buffer.push(3);
    assert!(buffer.is_full());
    assert_eq!(buffer.pop_all(), vec![1, 2, 3]);
    assert_eq!(buffer.len(), 0);
    assert!(!buffer.is_full());
}

#[test]
fn global_construct() {
    let _global: Global<usize, 12> = Global::new();
    let local: Local<usize, 12, 12> = Local::new();
    let _ = local;
}

#[test]
fn local_drop() {
    let mut global: Global<usize, 12> = Global::new();
    let mut local: Local<usize, 12, 12> = Local::new();
    local.collect_garbage(&mut global, 0_usize);
    local.release(&mut global);
    // The released bag is freed two epochs on.
    let mut worker: Local<usize, 12, 12> = Local::new();
    let mut freed = Vec::new();
    for _ in 0..3 {
        freed.extend(worker.pin(&mut global));
        worker.unpin(&mut global);
    }
    assert_eq!(freed, vec![0_usize]);
}

#[test]
fn epoch_frees_a_bag_only_once_its_epoch_is_quiet() {
    let mut global: Global<usize, 12> = Global::new();
    let mut local: Local<usize, 2, 12> = Local::new();
    let mut other: Local<usize, 2, 12> = Local::new();
    // The other worker stays pinned in epoch 1.
    assert!(other.pin(&mut global).is_empty());
    // Retire three items: the full bag of two moves to the queue of epoch 1.
    local.pin(&mut global);
    local.collect_garbage(&mut global, 10);
    local.collect_garbage(&mut global, 11);
    local.collect_garbage(&mut global, 12);
    local.unpin(&mut global);
    // While the other worker is pinned, nothing is freed.
    for _ in 0..6 {
        assert!(local.pin(&mut global).is_empty());
        local.unpin(&mut global);
    }
    other.unpin(&mut global);
    let mut freed = Vec::new();
    for _ in 0..3 {
        freed.extend(local.pin(&mut global));
        local.unpin(&mut global);
    }
    assert_eq!(freed, vec![10, 11]);
}

#[test]
fn epoch_release_hands_the_bag_to_the_queue() {
    let mut global: Global<usize, 12> = Global::new();
    let mut local: Local<usize, 8, 12> = Local::new();
    local.pin(&mut global);
    local.collect_garbage(&mut global, 5);
    local.unpin(&mut global);
    local.release(&mut global);
    let mut worker: Local<usize, 8, 12> = Local::new();
    let mut freed = Vec::new();
    for _ in 0..3 {
        freed.extend(worker.pin(&mut global));
        worker.unpin(&mut global);
    }
    assert_eq!(freed, vec![5]);
}

#[test]
fn stack_stack_is_empty() {
    let stack: AtomicStack<usize> = AtomicStack::new();
    assert!(stack.is_empty());
}

#[test]
fn stack_stack_unchecked_pop() {
    let mut stack = AtomicStack::new();
    let gc = &mut stack.get_gc();
    stack.push(1001_usize, gc);
    stack.push(1002_usize, gc);
    stack.push(1003_usize, gc);
    stack.push(1004_usize, gc);
    assert_eq!(stack.unchecked_pop(gc), 1004_usize);
    assert_eq!(stack.unchecked_pop(gc), 1003_usize);
    assert_eq!(stack.unchecked_pop(gc), 1002_usize);
    assert_eq!(stack.unchecked_pop(gc), 1001_usize);
}

#[test]
fn stack_stack_pop() {
    let mut stack = AtomicStack::new();
    let gc = &mut stack.get_gc();
    stack.push(1002_usize, gc);
    stack.push(1003_usize, gc);
    stack.push(1004_usize, gc);
    assert_eq!(stack.pop(gc).unwrap(), 1004_usize);
    assert_eq!(stack.pop(gc).unwrap(), 1003_usize);
    assert_eq!(stack.pop(gc).unwrap(), 1002_usize);
    assert!(stack.pop(gc).as_ref().is_none());
}

#[test]
fn stack_empty_pop() {
    let mut stack: AtomicStack<usize> = AtomicStack::new();
    let gc = &mut stack.get_gc();
    assert_eq!(stack.pop(gc), None);
    assert_eq!(stack.pop(gc), None);
    assert_eq!(stack.len(), 0);
}

#[test]
fn stack_lifo_single_worker() {
    let mut stack: AtomicStack<usize> = AtomicStack::new();
    let gc = &mut stack.get_gc();
    for v in [1001, 1002, 1003, 1004] {
        stack.push(v, gc);
    }
    assert_eq!(stack.len(), 4);
    let popped: Vec<usize> = (0..4).map(|_| stack.pop(gc).unwrap()).collect();
    assert_eq!(popped, vec![1004, 1003, 1002, 1001]);
    assert!(stack.is_empty());
}

#[test]
fn stack_many_workers_symmetry() {
    let mut stack: AtomicStack<usize> = AtomicStack::new();
    let mut workers: Vec<StackCollector> = (0..10).map(|_| stack.get_gc()).collect();
    for _ in 0..500 {
        for gc in workers.iter_mut() {
            stack.push(1008, gc);
            assert_eq!(stack.pop(gc), Some(1008));
        }
    }
    assert!(stack.is_empty());
    assert_eq!(stack.len(), 0);
}

#[test]
fn stack_conserves_payloads() {
    let mut stack: AtomicStack<u32> = AtomicStack::new();
    let gc = &mut stack.get_gc();
    let mut pushed = Vec::new();
    let mut popped = Vec::new();
    for i in 0..200_u32 {
        stack.push(i, gc);
        pushed.push(i);
        if i % 3 == 0 {
            if let Some(v) = stack.pop(gc) {
                popped.push(v);
            }
        }
    }
    let mut resident = Vec::new();
    while let Some(v) = stack.pop(gc) {
        resident.push(v);
    }
    let mut all: Vec<u32> = popped.iter().chain(resident.iter()).copied().collect();
    all.sort();
    assert_eq!(all, pushed);
}

#[test]
fn stack_reuses_reclaimed_slots() {
    let mut stack: AtomicStack<Vec<u8>> = AtomicStack::new();
    let gc = &mut stack.get_gc();
    for round in 0..100_u8 {
        stack.push(vec![round; 3], gc);
        stack.push(vec![round; 2], gc);
        assert_eq!(stack.pop(gc), Some(vec![round; 2]));
        assert_eq!(stack.pop(gc), Some(vec![round; 3]));
    }
    assert!(stack.is_empty());
}
