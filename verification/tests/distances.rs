use point_list::distances::Distances;
use rand::Rng;
use rand::SeedableRng;

#[test]
fn test_increase_distance() {
    let mut rng = rand::rngs::StdRng::seed_from_u64(0);
    let mut distances = Distances::new();
    let mut simple_distances = [0u64; 4];
    for index in 0..4 {
        let value = rng.next_u32() as u64;
        distances.increase_distance(index, value);
        simple_distances[index] += value;
    }
    assert_eq!(distances.simple(), simple_distances);
    assert_eq!(Distances::from_simple(distances.simple()), distances);
    let mut reproduced_simple = [0u64; 4];
    for index in 0..4 {
        reproduced_simple[index] = distances.distance(index);
    }
    assert_eq!(simple_distances, reproduced_simple);
}

#[test]
fn test_splice() {
    let half: usize = 2;

    let first_half = Distances::from_simple([1, 1, 0, 0]);
    let second_half = Distances::from_simple([0, 0, 1, 1]);

    let mut distances = Distances::from_simple([1u64; 4]);
    distances.splice(0, 4, 0);
    assert_eq!(distances, Distances::new());

    let mut distances = Distances::from_simple([1u64; 4]);
    distances.splice(0, 4, 4);
    assert_eq!(distances, Distances::new());

    let mut distances = Distances::from_simple([1u64; 4]);
    distances.splice(0, half, 0);
    assert_eq!(distances, first_half);

    let mut distances = Distances::from_simple([1u64; 4]);
    distances.splice(0, half, half);
    assert_eq!(distances, second_half);

    let mut distances = Distances::from_simple([1u64; 4]);
    distances.splice(half, 4, 0);
    assert_eq!(distances, first_half);

    let mut distances = Distances::from_simple([1u64; 4]);
    distances.splice(half, 4, half);
    assert_eq!(distances, first_half);
}

#[test]
fn test_remove_shifts_gaps() {
    let mut distances = Distances::from_simple([4, 2, 3, 1]);
    distances.remove(1);
    assert_eq!(distances.simple(), [4, 3, 1, 0]);
    assert_eq!(distances.length(), 8);
}
