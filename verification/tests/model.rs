use arithmetic_coding::models::modeltrait::ModelTrait;
use arithmetic_coding::models::standard::Standard;

#[test]
fn default_model_has_no_symbols() {
    let model: Standard<u8> = Standard::default();
    assert!(model.intervals.is_empty());
    assert_eq!(model.cumulative_frequency, 0);
    assert_eq!(model.length, 0);
    assert!(model.data.is_empty());
    assert_eq!(model.message_length(), 0);
}

#[test]
fn init_parts_the_total_among_the_symbols() {
    let data: Vec<u32> = vec![7, 7, 7, 1, 9, 9, 1, 7, 400000];
    let mut model = Standard::default();
    model.init(&data);
    assert_eq!(model.cumulative_frequency, 9);
    assert_eq!(model.length, 9);
    let mut intervals: Vec<(u64, u64)> = model.intervals.values().copied().collect();
    intervals.sort();
    assert_eq!(intervals.len(), 4);
    assert_eq!(intervals[0].0, 0);
    for pair in intervals.windows(2) {
        assert_eq!(pair[0].1, pair[1].0);
    }
    assert_eq!(intervals[3].1, 9);
    let width = |symbol: u32| model.intervals[&symbol].1 - model.intervals[&symbol].0;
    assert_eq!(width(7), 4);
    assert_eq!(width(1), 2);
    assert_eq!(width(9), 2);
    assert_eq!(width(400000), 1);
}

#[test]
fn init_of_an_empty_message_gives_an_empty_table() {
    let data: Vec<u8> = Vec::new();
    let mut model = Standard::default();
    let (intervals, total, length) = model.init(&data);
    assert!(intervals.is_empty());
    assert_eq!((total, length), (0, 0));
}

#[test]
fn init_on_a_filled_model_replaces_the_table() {
    let mut model: Standard<u8> = Standard::default();
    model.intervals.insert(1, (0, 4));
    model.intervals.insert(2, (4, 10));
    model.cumulative_frequency = 10;
    model.length = 10;
    model.init(&vec![2, 2, 3]);
    assert_eq!(model.cumulative_frequency, 3);
    assert_eq!(model.length, 3);
    assert_eq!(model.intervals.len(), 2);
    assert!(!model.intervals.contains_key(&1));
    let two = model.intervals[&2];
    let three = model.intervals[&3];
    assert_eq!(two.1 - two.0, 2);
    assert_eq!(three.1 - three.0, 1);
    assert_eq!(two.0.min(three.0), 0);
    assert_eq!(two.1.max(three.1), 3);
    assert!(two.1 == three.0 || three.1 == two.0);
}

#[test]
fn second_init_gives_a_partition_again() {
    let mut model: Standard<u8> = Standard::default();
    model.init(&vec![1]);
    model.init(&vec![1]);
    assert_eq!(model.intervals.len(), 1);
    assert_eq!(model.intervals[&1], (0, 1));
    assert_eq!(model.cumulative_frequency, 1);
    assert_eq!(model.length, 1);
    model.init(&vec![7, 8, 7, 7]);
    let widths: u64 = model.intervals.values().map(|interval| interval.1 - interval.0).sum();
    assert_eq!(widths, model.cumulative_frequency);
    assert_eq!(model.cumulative_frequency, 4);
    assert_eq!(model.intervals.len(), 2);
}

#[test]
fn model_reports_its_fields() {
    let mut model: Standard<char> = Standard::default();
    model.intervals.insert('a', (0, 3));
    model.intervals.insert('b', (3, 4));
    model.cumulative_frequency = 4;
    model.length = 11;
    let (intervals, total, length) = model.model();
    assert_eq!(intervals.len(), 2);
    assert_eq!(intervals[&'a'], (0, 3));
    assert_eq!((total, length), (4, 11));
    assert_eq!(model.message_length(), 11);
}

#[test]
fn hooks_of_the_static_model_return_the_same_snapshot() {
    let mut model: Standard<u8> = Standard::default();
    model.intervals.insert(5, (0, 1));
    model.intervals.insert(6, (1, 8));
    model.cumulative_frequency = 8;
    model.length = 2;
    let shown: Vec<u8> = vec![6, 5];
    {
        let (intervals, total) = model.update_encode(&shown);
        assert_eq!(intervals[&6], (1, 8));
        assert_eq!(intervals.len(), 2);
        assert_eq!(total, 8);
    }
    {
        let (intervals, total) = model.update_decode(&shown);
        assert_eq!(intervals[&5], (0, 1));
        assert_eq!(total, 8);
    }
    assert_eq!(model.cumulative_frequency, 8);
    assert_eq!(model.length, 2);
    assert_eq!(model.intervals.len(), 2);
}

#[test]
fn strings_can_be_symbols() {
    let data: Vec<String> = vec!["to".to_string(), "be".to_string(), "to".to_string()];
    let mut model = Standard::default();
    model.init(&data);
    let to = model.intervals["to"];
    let be = model.intervals["be"];
    assert_eq!(to.1 - to.0, 2);
    assert_eq!(be.1 - be.0, 1);
    assert_eq!(model.cumulative_frequency, 3);
}
