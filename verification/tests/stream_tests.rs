use rand_split::partition_stream;
use rand_split::partition_stream_ttv;
use rand_split::PartsIterator;
use rand_split::SplitError;
use rand_split::WeightedSelector;

#[test]
fn correct_split_sizes_even_stream() {
    let splits = [2i64, 7, 1];
    let cont = vec![1, 2, 3, 4, 5, 6, 7, 8, 9, 10];
    let (mut train, mut test, mut valid) = (Vec::new(), Vec::new(), Vec::new());
    let rows = partition_stream_ttv(cont, splits).unwrap();
    for sp in rows {
        train.push(sp[0]);
        test.push(sp[1]);
        valid.push(sp[2])
    }
    println!(
        "Train: {:#?}, Test: {:#?}, Validation: {:#?}",
        train, test, valid
    );
}

#[test]
fn stream_preserves_multiset() {
    let splits = vec![1i64, 3, 2];
    let cont = vec![4, 4, 8, 15, 16, 23, 42, 4, 7];
    let mut expected = cont.clone();
    expected.sort();
    let rows = partition_stream(cont, &splits).unwrap();
    let mut all: Vec<i32> = Vec::new();
    for row in &rows {
        assert_eq!(row.len(), 3);
        for slot in row {
            if let Some(x) = slot {
                all.push(*x);
            }
        }
    }
    all.sort();
    assert_eq!(all, expected);
}

#[test]
fn stream_single_partition_keeps_arrival_order() {
    let splits = vec![1i64];
    let cont = vec![9, 2, 5, 5, 1, 8];
    let rows = partition_stream(cont.clone(), &splits).unwrap();
    let mut column: Vec<i32> = Vec::new();
    for row in &rows {
        assert_eq!(row.len(), 1);
        if let Some(x) = &row[0] {
            column.push(*x);
        }
    }
    assert_eq!(column, cont);
}

#[test]
fn stream_fifo_order_within_forced_partition() {
    // with only the middle weight positive, every element must flow through
    // slot 1, in arrival order
    let splits = vec![0i64, 4, 0];
    let cont = vec![3, 1, 4, 1, 5, 9, 2, 6];
    let rows = partition_stream(cont.clone(), &splits).unwrap();
    let mut middle: Vec<i32> = Vec::new();
    for row in &rows {
        assert_eq!(row[0], None);
        assert_eq!(row[2], None);
        if let Some(x) = &row[1] {
            middle.push(*x);
        }
    }
    assert_eq!(middle, cont);
}

#[test]
fn stream_zero_weight_slots_stay_empty() {
    let splits = [0i64, 2, 0];
    let cont = (1..=20).collect::<Vec<i32>>();
    let rows = partition_stream_ttv(cont, splits).unwrap();
    let mut count: usize = 0;
    for row in &rows {
        assert_eq!(row[0], None);
        assert_eq!(row[2], None);
        if row[1].is_some() {
            count += 1;
        }
    }
    assert_eq!(count, 20);
}

#[test]
fn scenario_stream_emits_every_element_once() {
    let splits = [2i64, 7, 1];
    let cont = (1..=10).collect::<Vec<i32>>();
    let rows = partition_stream_ttv(cont, splits).unwrap();
    let mut emitted: usize = 0;
    for row in &rows {
        let filled = row.iter().filter(|slot| slot.is_some()).count();
        assert!(filled <= 3);
        emitted += filled;
    }
    assert_eq!(emitted, 10);
}

#[test]
fn scenario_empty_source_gives_no_rows() {
    let splits = vec![2i64, 7, 1];
    let cont: Vec<i32> = Vec::new();
    let rows = partition_stream(cont, &splits).unwrap();
    assert_eq!(rows.len(), 0);

    let rows_ttv = partition_stream_ttv(Vec::<i32>::new(), [2, 7, 1]).unwrap();
    assert_eq!(rows_ttv.len(), 0);
}

#[test]
fn stream_invalid_weights() {
    assert!(matches!(
        partition_stream(vec![1, 2, 3], &Vec::new()),
        Err(SplitError::InvalidWeights)
    ));
    assert!(matches!(
        partition_stream(vec![1, 2, 3], &vec![1, -2]),
        Err(SplitError::InvalidWeights)
    ));
    assert!(matches!(
        partition_stream_ttv(vec![1, 2, 3], [0, 0, 0]),
        Err(SplitError::InvalidWeights)
    ));
}

#[test]
fn iterator_can_be_driven_by_hand() {
    let splits = vec![1i64, 1];
    let mut it = PartsIterator::new(vec![1, 2, 3, 4, 5], &splits).unwrap();
    let mut emitted: usize = 0;
    while let Some(row) = it.next() {
        assert_eq!(row.len(), 2);
        emitted += row.iter().filter(|slot| slot.is_some()).count();
    }
    assert_eq!(emitted, 5);
}

#[test]
fn iterator_accepts_pushed_source_elements() {
    let splits = vec![1i64];
    let mut it = PartsIterator::new(Vec::new(), &splits).unwrap();
    assert_eq!(it.buffered_len(), 0);
    it.push_source(7);
    it.push_source(8);
    assert_eq!(it.buffered_len(), 2);
    let mut column: Vec<i32> = Vec::new();
    while let Some(row) = it.next() {
        if let Some(x) = &row[0] {
            column.push(*x);
        }
    }
    assert_eq!(column, vec![7, 8]);
}

#[test]
fn selector_rejects_bad_weights_and_samples_in_range() {
    assert!(matches!(
        WeightedSelector::new(Vec::new()),
        Err(SplitError::InvalidWeights)
    ));
    assert!(matches!(
        WeightedSelector::new(vec![1, -1]),
        Err(SplitError::InvalidWeights)
    ));
    assert!(matches!(
        WeightedSelector::new(vec![0, 0]),
        Err(SplitError::InvalidWeights)
    ));
    let mut sel = WeightedSelector::new(vec![0i64, 5]).unwrap();
    assert_eq!(sel.len(), 2);
    for _ in 0..50 {
        // the zero-weight index is never drawn
        assert_eq!(sel.sample(), 1);
    }
}
