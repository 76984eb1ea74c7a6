use rs_sol::dsa::vector::CustomVector;

#[test]
fn push_and_pop() {
    let mut vec = CustomVector::new();

    vec.push_back(24);
    vec.push_back(29);
    vec.push_back(31);
    vec.push_back(65);
    vec.push_back(22);
    vec.push_back(-1223);
    vec.push_back(23432);

    assert_eq!(vec.get_len(), 7);

    assert_eq!(vec.pop(), Some(23432));
    assert_eq!(vec.pop(), Some(-1223));
    assert_eq!(vec.pop(), Some(22));
    assert_eq!(vec.pop(), Some(65));

    assert_eq!(vec.get_len(), 3);

    vec.push_back(234322);
    assert_eq!(vec.get_len(), 4);
}

#[test]
fn indexable() {
    let mut vec = CustomVector::new();

    vec.push_back(24);
    vec.push_back(25);
    vec.push_back(26);
    vec.push_back(62);

    assert_eq!(vec[0], 24);
    assert_eq!(vec[1], 25);
    assert_eq!(vec.pop(), Some(62));
    assert_eq!(vec.pop(), Some(26));
    assert_eq!(vec.pop(), Some(25));
    assert_eq!(vec[0], 24);
}

#[test]
#[should_panic]
fn idx_oob() {
    let mut vec = CustomVector::new();

    vec.push_back(24);
    vec.push_back(25);
    vec.push_back(26);
    assert_eq!(vec[vec.get_len()], 25);
}

#[test]
fn creates_with_capacity() {
    let cap = 24;
    let mut vec = CustomVector::with_capacity(cap);

    assert_eq!(cap, vec.get_capacity());
    assert_eq!(0, vec.get_len());

    for i in 0..cap {
        vec.push_back((i + 1) as i32);
    }

    assert_eq!(24, vec.get_len());
    assert_eq!(24, vec.get_capacity());
    vec.push_back(554);

    assert_eq!(25, vec.get_len());
    assert_eq!(48, vec.get_capacity());
}

#[test]
fn returns_first() {
    let mut vec = CustomVector::with_capacity(22);

    assert_eq!(vec.first(), None);

    vec.push_back(24);
    vec.push_back(44);
    vec.push_back(33);

    assert_eq!(vec.first(), Some(&24));
    vec.pop();
    vec.pop();
    assert_eq!(vec.first(), Some(&24));
    vec.pop();

    vec.push_back(64);
    assert_eq!(vec.first(), Some(&64));
}

#[test]
fn returns_last() {
    let mut vec = CustomVector::with_capacity(48);

    assert_eq!(vec.last(), None);

    vec.push_back(24);
    vec.push_back(44);
    vec.push_back(33);

    assert_eq!(vec.last(), Some(&33));
    vec.pop();
    vec.pop();
    assert_eq!(vec.last(), Some(&24));
    vec.pop();

    vec.push_back(64);
    assert_eq!(vec.last(), Some(&64));
}

#[test]
fn grows_from_nothing_to_four_and_then_doubles() {
    let mut vec = CustomVector::new();
    assert_eq!(vec.get_capacity(), 0);
    assert!(vec.is_empty());
    vec.push_back(1);
    assert_eq!(vec.get_capacity(), 4);
    assert!(!vec.is_empty());
    for i in 2..=4 {
        vec.push_back(i);
    }
    assert_eq!(vec.get_capacity(), 4);
    vec.push_back(5);
    assert_eq!(vec.get_capacity(), 8);
    assert_eq!(vec.get_len(), 5);
    for _ in 0..5 {
        vec.pop();
    }
    assert_eq!(vec.get_capacity(), 8);
    assert_eq!(vec.pop(), None);
    assert!(vec.is_empty());
}

#[test]
fn with_no_capacity_is_the_new_array() {
    let vec = CustomVector::with_capacity(0);
    assert_eq!(vec.get_capacity(), 0);
    assert_eq!(vec.get_len(), 0);
    assert_eq!(vec.first(), None);
    assert_eq!(vec.last(), None);
}

#[test]
fn get_answers_inside_and_outside() {
    let mut vec = CustomVector::new();
    vec.push_back(7);
    vec.push_back(8);
    assert_eq!(vec.get(0), Some(&7));
    assert_eq!(vec.get(1), Some(&8));
    assert_eq!(vec.get(2), None);
    assert_eq!(vec.get(usize::MAX), None);
}
