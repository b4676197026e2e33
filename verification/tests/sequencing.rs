use inorder::reorder::ProtocolViolation;
use inorder::reorder::ReorderStage;
use inorder::view::into_seq_view;
use inorder::view::SequentialView;

/// Drains a view to a vector, pulling until end-of-sequence.
fn drain<T>(view: &mut SequentialView<T>) -> Vec<T> {
    let mut out = Vec::new();
    while let Some(v) = view.next() {
        out.push(v);
    }
    out
}

#[test]
fn it_should_be_sequential() {
    // source [10, 20), transform x * 2, completions arriving back to front
    let mut arrivals: Vec<(usize, i32)> = Vec::new();
    for i in (0..10).rev() {
        arrivals.push((i, (10 + i as i32) * 2));
    }
    let mut view = into_seq_view(10, arrivals).unwrap();
    let vec = drain(&mut view);
    assert_eq!(vec, vec![20, 22, 24, 26, 28, 30, 32, 34, 36, 38]);
}

#[test]
fn order_preserved_under_scrambled_completion() {
    // the same source and transform, under an interleaved completion order
    let order = [3, 7, 0, 9, 4, 1, 8, 2, 6, 5];
    let mut arrivals: Vec<(usize, i32)> = Vec::new();
    for &i in order.iter() {
        arrivals.push((i, (10 + i as i32) * 2));
    }
    let values = ReorderStage::reorder_all(10, arrivals).unwrap();
    assert_eq!(values, vec![20, 22, 24, 26, 28, 30, 32, 34, 36, 38]);
}

#[test]
fn each_index_delivered_exactly_once() {
    let order = [2, 0, 3, 1];
    let mut arrivals: Vec<(usize, u64)> = Vec::new();
    for &i in order.iter() {
        arrivals.push((i, 100 + i as u64));
    }
    let values = ReorderStage::reorder_all(4, arrivals).unwrap();
    assert_eq!(values.len(), 4);
    for k in 0..4u64 {
        let copies = values.iter().filter(|v| **v == 100 + k).count();
        assert_eq!(copies, 1);
    }
}

#[test]
fn exhaustion_is_idempotent() {
    let arrivals = vec![(0usize, 'a'), (1usize, 'b'), (2usize, 'c')];
    let mut view = into_seq_view(3, arrivals).unwrap();
    assert_eq!(view.next(), Some('a'));
    assert_eq!(view.next(), Some('b'));
    assert_eq!(view.next(), Some('c'));
    assert_eq!(view.next(), None);
    assert_eq!(view.next(), None);
    assert_eq!(view.next(), None);
}

#[test]
fn empty_source_yields_end_at_once() {
    let arrivals: Vec<(usize, i32)> = Vec::new();
    let mut view = into_seq_view(0, arrivals).unwrap();
    assert_eq!(view.len(), 0);
    assert_eq!(view.next(), None);
    assert_eq!(view.next(), None);
}

#[test]
fn single_element_delivers_then_ends() {
    let arrivals = vec![(0usize, 41 * 2)];
    let mut view = into_seq_view(1, arrivals).unwrap();
    assert_eq!(view.next(), Some(82));
    assert_eq!(view.next(), None);
}

#[test]
fn worst_case_skew_buffers_then_bursts() {
    let mut stage: ReorderStage<u32> = ReorderStage::new(5);
    assert_eq!(stage.expected(), 5);
    for i in 1..5usize {
        let released = stage.submit(i, 10 * i as u32).unwrap();
        assert!(released.is_empty());
        assert_eq!(stage.buffered(), i);
        assert_eq!(stage.delivered(), 0);
    }
    let burst = stage.submit(0, 0).unwrap();
    assert_eq!(burst, vec![0, 10, 20, 30, 40]);
    assert_eq!(stage.buffered(), 0);
    assert_eq!(stage.delivered(), 5);
    assert!(stage.finalize().is_ok());
}

#[test]
fn partial_runs_release_as_ready() {
    let mut stage: ReorderStage<&str> = ReorderStage::new(4);
    assert_eq!(stage.submit(0, "a").unwrap(), vec!["a"]);
    assert_eq!(stage.submit(2, "c").unwrap(), Vec::<&str>::new());
    assert_eq!(stage.submit(1, "b").unwrap(), vec!["b", "c"]);
    assert_eq!(stage.submit(3, "d").unwrap(), vec!["d"]);
    assert!(stage.finalize().is_ok());
}

#[test]
fn buffer_drains_by_completion() {
    // the pending count may grow while the cursor is blocked, but it is back
    // to zero once every index has been delivered
    let order = [4, 3, 2, 1, 0];
    let mut stage: ReorderStage<u8> = ReorderStage::new(5);
    let mut delivered = 0;
    for &i in order.iter() {
        let released = stage.submit(i, i as u8).unwrap();
        delivered += released.len();
        assert_eq!(stage.buffered() + delivered, 5 - i);
    }
    assert_eq!(stage.buffered(), 0);
    assert_eq!(stage.delivered(), 5);
}

#[test]
fn duplicate_index_is_rejected() {
    let mut stage: ReorderStage<i32> = ReorderStage::new(3);
    assert!(stage.submit(1, 7).is_ok());
    // still buffered
    assert_eq!(stage.submit(1, 8), Err(ProtocolViolation::DuplicateIndex));
    assert!(stage.submit(0, 6).is_ok());
    // already delivered
    assert_eq!(stage.submit(0, 9), Err(ProtocolViolation::DuplicateIndex));
}

#[test]
fn out_of_range_index_is_rejected() {
    let mut stage: ReorderStage<i32> = ReorderStage::new(3);
    assert_eq!(stage.submit(3, 1), Err(ProtocolViolation::IndexOutOfRange));
    assert_eq!(stage.submit(100, 1), Err(ProtocolViolation::IndexOutOfRange));
}

#[test]
fn early_finalize_reports_incomplete() {
    let mut stage: ReorderStage<i32> = ReorderStage::new(2);
    assert_eq!(stage.finalize(), Err(ProtocolViolation::Incomplete));
    assert!(stage.submit(0, 5).is_ok());
    assert_eq!(stage.finalize(), Err(ProtocolViolation::Incomplete));
    assert!(stage.submit(1, 6).is_ok());
    assert_eq!(stage.finalize(), Ok(()));
}

#[test]
fn reorder_all_surfaces_violations() {
    let dup = vec![(0usize, 1), (0usize, 2)];
    assert_eq!(
        ReorderStage::reorder_all(2, dup),
        Err(ProtocolViolation::DuplicateIndex)
    );
    let oor = vec![(5usize, 1)];
    assert_eq!(
        ReorderStage::reorder_all(2, oor),
        Err(ProtocolViolation::IndexOutOfRange)
    );
    let missing = vec![(0usize, 1)];
    assert_eq!(
        ReorderStage::reorder_all(2, missing),
        Err(ProtocolViolation::Incomplete)
    );
}

#[test]
fn view_reports_remaining_length() {
    let values = vec![1, 2, 3];
    let mut view = SequentialView::new(values);
    assert_eq!(view.len(), 3);
    view.next();
    assert_eq!(view.len(), 2);
    view.next();
    view.next();
    assert_eq!(view.len(), 0);
}
