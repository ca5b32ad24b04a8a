use rans::mut_cow::MutCow;

#[test]
fn test_create_from_array() {
    let mut data: [u8; 4] = [1, 2, 3, 4];
    let mut mut_cow = MutCow::from(&mut data[..]);
    mut_cow.set(0, 5);

    assert_eq!(mut_cow.as_slice(), [5, 2, 3, 4]);
    drop(mut_cow);
    assert_eq!(data, [5, 2, 3, 4]);
}

#[test]
fn test_create_from_slice() {
    let mut data = vec![1, 2, 3, 4];
    let mut mut_cow = MutCow::from(data.as_mut_slice());
    mut_cow.set(0, 5);

    assert_eq!(mut_cow.as_slice(), [5, 2, 3, 4]);
    drop(mut_cow);
    assert_eq!(data, [5, 2, 3, 4]);
}

#[test]
fn test_create_from_owned() {
    let data: [u8; 4] = [1, 2, 3, 4];
    let mut mut_cow = MutCow::from(data.to_vec());
    mut_cow.set(0, 5);

    assert_eq!(mut_cow.as_slice(), [5, 2, 3, 4]);
}

#[test]
fn test_create_from_array_by_value_copies() {
    let data: [u8; 4] = [1, 2, 3, 4];
    let mut mut_cow = MutCow::from(data);
    mut_cow.set(0, 5);

    assert_eq!(mut_cow.as_slice(), [5, 2, 3, 4]);
    assert_eq!(data, [1, 2, 3, 4]);
}
