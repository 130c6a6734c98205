use arithmetic_coding::models::modeltrait::ModelTrait;
use arithmetic_coding::models::standard::Standard;

#[test]
fn test_init_func() {
    let data: Vec<u8> = vec![0, 255, 255, 255, 67, 67];
    let mut model = Standard::default();

    // The intervals live in a hash map, whose order is not fixed: only the
    // total, the length and the width of each interval can be compared.
    let (intervals_ref, cumulative_frequency, length) = model.init(&data);
    let intervals = intervals_ref.clone();

    assert_eq!(model.cumulative_frequency, 6);
    assert_eq!(model.length, 6);
    assert_eq!(model.intervals.len(), 3);
    assert_eq!(model.intervals.get(&0).unwrap().1 - model.intervals.get(&0).unwrap().0, 1);
    assert_eq!(model.intervals.get(&255).unwrap().1 - model.intervals.get(&255).unwrap().0, 3);
    assert_eq!(model.intervals.get(&67).unwrap().1 - model.intervals.get(&67).unwrap().0, 2);

    assert_eq!(cumulative_frequency, 6);
    assert_eq!(length, 6);
    assert_eq!(intervals.len(), 3);
    assert_eq!(intervals.get(&0).unwrap().1 - intervals.get(&0).unwrap().0, 1);
    assert_eq!(intervals.get(&255).unwrap().1 - intervals.get(&255).unwrap().0, 3);
    assert_eq!(intervals.get(&67).unwrap().1 - intervals.get(&67).unwrap().0, 2);

    println!("Fréquences: {:?}", model.cumulative_frequency);
    println!("Intervalles: {:?}", model.intervals);
    println!("Longueur: {}", model.length);
}
