use rand::{thread_rng, Rng};
use shortlist::Shortlist;

/* ===== HELPER FUNCTIONS ===== */

fn check_sorted_vecs<T: Ord + Eq + std::fmt::Debug>(
    sorted_input_values: Vec<T>,
    shortlist_vec: Vec<T>,
    capacity: usize,
) {
    let mut debug_lines = Vec::with_capacity(1000);
    debug_lines.push("".to_string());
    debug_lines.push(format!("Input length      : {}", sorted_input_values.len()));
    debug_lines.push(format!("Shortlist capacity: {}", capacity));
    debug_lines.push(format!("Shortlist length  : {}", shortlist_vec.len()));
    // The shortlist's length is the minimum of its capacity and the number of input values
    if shortlist_vec.len() != capacity.min(sorted_input_values.len()) {
        debug_lines.push(format!("Input values: {:?}", sorted_input_values));
        debug_lines.push(format!("Shortlisted values: {:?}", shortlist_vec));
        for line in debug_lines {
            println!("{}", line);
        }
        panic!();
    }
    // The shortlist's sorted items are a suffix of the sorted input values
    for (val, exp_val) in shortlist_vec
        .iter()
        .rev()
        .zip(sorted_input_values.iter().rev())
    {
        if val == exp_val {
            debug_lines.push(format!("{:?} == {:?}", val, exp_val));
        } else {
            debug_lines.push(format!("{:?} != {:?}", val, exp_val));
            for line in debug_lines {
                println!("{}", line);
            }
            panic!();
        }
    }
}

fn gen_sample_input(rng: &mut impl Rng) -> (usize, Vec<usize>) {
    // Decide how much capacity the shortlist will have
    let capacity = rng.gen_range(1, 100);
    let mut input_values: Vec<usize> = Vec::new();
    for _ in 0..rng.gen_range(1, 1000) {
        let val = rng.gen_range(0, 1000);
        input_values.push(val);
    }
    (capacity, input_values)
}

fn generate_input_and_shortlist(rng: &mut impl Rng) -> (Vec<usize>, Shortlist<usize>) {
    let (capacity, mut input_values) = gen_sample_input(rng);
    let shortlist: Shortlist<usize> = Shortlist::from_slice(capacity, &input_values);
    input_values.sort();
    (input_values, shortlist)
}

fn check_correctness(check: impl Fn(Vec<usize>, Shortlist<usize>) -> ()) {
    let mut rng = thread_rng();
    for _ in 1..10_000 {
        let (input_values, shortlist) = generate_input_and_shortlist(&mut rng);
        check(input_values, shortlist);
    }
}

/* ===== TESTING FUNCTIONS ===== */

#[test]
fn iter() {
    check_correctness(|values, shortlist| {
        let capacity = shortlist.capacity();
        let mut shortlist_vec: Vec<usize> = shortlist.iter().copied().collect();
        shortlist_vec.sort();
        check_sorted_vecs(values, shortlist_vec, capacity);
    });
}

#[test]
fn into_sorted_vec() {
    check_correctness(|values, shortlist| {
        let capacity = shortlist.capacity();
        let shortlist_vec = shortlist.into_sorted_vec();
        check_sorted_vecs(values, shortlist_vec, capacity);
    });
}

#[test]
fn into_sorted_vec_safe() {
    check_correctness(|values, shortlist| {
        let capacity = shortlist.capacity();
        let shortlist_vec = shortlist.into_sorted_vec_safe();
        check_sorted_vecs(values, shortlist_vec, capacity);
    });
}

#[test]
fn sorted_cloned_vec() {
    check_correctness(|values, shortlist| {
        let capacity = shortlist.capacity();
        let shortlist_vec = shortlist.sorted_cloned_vec();
        check_sorted_vecs(values, shortlist_vec, capacity);
    });
}

#[test]
fn into_vec() {
    check_correctness(|values, shortlist| {
        let capacity = shortlist.capacity();
        let mut shortlist_vec = shortlist.into_vec();
        shortlist_vec.sort();
        check_sorted_vecs(values, shortlist_vec, capacity);
    });
}

#[test]
fn into_vec_safe() {
    check_correctness(|values, shortlist| {
        let capacity = shortlist.capacity();
        let mut shortlist_vec = shortlist.into_vec_safe();
        shortlist_vec.sort();
        check_sorted_vecs(values, shortlist_vec, capacity);
    });
}

#[test]
fn drain() {
    check_correctness(|values, mut shortlist| {
        let capacity = shortlist.capacity();
        let mut shortlist_vec: Vec<usize> = shortlist.drain().collect();
        // If we have drained the shortlist, it must be empty
        assert!(shortlist.is_empty());
        shortlist_vec.sort();
        check_sorted_vecs(values, shortlist_vec, capacity);
    });
}

#[test]
fn clear() {
    check_correctness(|_values, mut shortlist| {
        shortlist.clear();
        assert!(shortlist.is_empty());
    });
}

#[test]
fn append() {
    let mut rng = thread_rng();
    for _ in 1..10_000 {
        let (capacity, mut input_values) = gen_sample_input(&mut rng);
        let shortlist: Shortlist<usize> =
            Shortlist::from_iter(capacity, input_values.iter().copied());
        input_values.sort();
        let mut shortlist_vec = shortlist.into_vec();
        shortlist_vec.sort();
        check_sorted_vecs(input_values, shortlist_vec, capacity);
    }
}

#[test]
fn capacity_and_len() {
    let mut rng = thread_rng();
    for _ in 1..10_000 {
        let (capacity, mut input_values) = gen_sample_input(&mut rng);
        let mut shortlist: Shortlist<usize> = Shortlist::new(capacity);
        for (i, val) in input_values.iter().copied().enumerate() {
            // The length grows with every push until the capacity is reached
            assert_eq!(shortlist.len(), i.min(capacity));
            // The capacity never changes
            assert_eq!(shortlist.capacity(), capacity);
            shortlist.push(val);
            assert!(!shortlist.is_empty());
        }
        input_values.sort();
        let mut shortlist_vec = shortlist.into_vec();
        shortlist_vec.sort();
        check_sorted_vecs(input_values, shortlist_vec, capacity);
    }
}
