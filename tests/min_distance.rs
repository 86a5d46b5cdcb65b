use kickstart::collection::minimum_distance;

fn classrooms(bits: &[u8]) -> Vec<bool> {
    bits.iter().map(|&b| b == 1).collect()
}

#[test]
// No continuous collection points.
fn discontinuous() {
    assert_eq!(
        minimum_distance(&classrooms(&[0, 0, 0, 1, 0, 1, 0, 1, 0, 0])),
        3 + 2 + 1 + 1 + 1 + 1 + 2,
    );
    assert_eq!(
        minimum_distance(&classrooms(&[0, 0, 1, 0, 1, 0, 0, 0, 1, 0])),
        2 + 1 + 1 + 1 + 2 + 1 + 1,
    );
    assert_eq!(
        minimum_distance(&classrooms(&[0, 0, 1, 0, 0, 1, 0, 0, 1, 0])),
        2 + 1 + 1 + 1 + 1 + 1 + 1,
    );
}

#[test]
// Some collection points are continuous.
fn continuous() {
    assert_eq!(minimum_distance(&classrooms(&[0, 1, 1, 0, 0])), 1 + 1 + 2);
    assert_eq!(minimum_distance(&classrooms(&[1, 1, 0, 0, 0])), 1 + 2 + 3);
    assert_eq!(minimum_distance(&classrooms(&[0, 0, 0, 1, 1])), 3 + 2 + 1);
    assert_eq!(minimum_distance(&classrooms(&[1, 1, 1, 1, 0])), 1);
    assert_eq!(minimum_distance(&classrooms(&[0, 1, 1, 1, 1])), 1);
    assert_eq!(minimum_distance(&classrooms(&[1, 1, 1, 1, 1])), 0);
}

#[test]
// One or both ends have collection points.
fn sided() {
    // Sided to the left:
    assert_eq!(
        minimum_distance(&classrooms(&[1, 0, 0, 0, 0, 0, 0, 0, 0, 0])),
        1 + 2 + 3 + 4 + 5 + 6 + 7 + 8 + 9,
    );
    assert_eq!(
        minimum_distance(&classrooms(&[1, 0, 0, 0, 0, 0, 0, 1, 0, 0])),
        1 + 2 + 3 + 3 + 2 + 1 + 1 + 2,
    );

    // Sided to the right:
    assert_eq!(
        minimum_distance(&classrooms(&[0, 0, 0, 0, 0, 0, 0, 0, 0, 1])),
        9 + 8 + 7 + 6 + 5 + 4 + 3 + 2 + 1,
    );
    assert_eq!(
        minimum_distance(&classrooms(&[0, 0, 0, 0, 1, 0, 0, 0, 0, 1])),
        4 + 3 + 2 + 1 + 1 + 2 + 2 + 1,
    );

    // Both sides:
    assert_eq!(
        minimum_distance(&classrooms(&[1, 0, 0, 0, 0, 0, 0, 0, 0, 1])),
        1 + 2 + 3 + 4 + 4 + 3 + 2 + 1,
    );
    assert_eq!(
        minimum_distance(&classrooms(&[1, 0, 0, 0, 0, 0, 0, 0, 0, 1])),
        1 + 2 + 3 + 4 + 4 + 3 + 2 + 1,
    );
}

#[test]
fn big() {
    // A '1' followed by 499_999 '0's gives 1 + 2 + 3 + 4 + ... + 499_999.
    let rooms: Vec<bool> = std::iter::once(true).chain(std::iter::repeat(false).take(499_999)).collect();
    assert_eq!(minimum_distance(&rooms), 124_999_750_000);
}

#[test]
fn single_room_with_a_point() {
    assert_eq!(minimum_distance(&[true]), 0);
    assert_eq!(minimum_distance(&[false, true]), 1);
    assert_eq!(minimum_distance(&[true, false]), 1);
}
