use sss::hold::{compartment_maxima, update_grain_moments, update_hold_compartments};

fn s(v: &str) -> String {
    v.to_string()
}

fn codes<V>(m: &Vec<(String, V)>) -> Vec<String> {
    m.iter().map(|e| e.0.clone()).collect()
}

#[test]
fn adds_new_holds_and_keeps_old_ones() {
    let compartments = vec![(s("1"), 10), (s("2"), 20), (s("3"), 30)];
    let mut holds: Vec<(String, Vec<i32>)> = vec![(s("H0"), vec![0])];
    let compartments_bounded = vec![(20usize, vec![(s("1"), 1), (s("3"), 3)])];
    let mut holds_bounded: Vec<(usize, Vec<(String, Vec<i32>)>)> = vec![(20, vec![(s("H0"), vec![])])];
    let requests = vec![
        (s("H1"), vec![s("1"), s("3"), s("9")]),
        (s("H0"), vec![s("2")]),
        (s("H1"), vec![s("2")]),
    ];
    let res: Result<(), String> = update_hold_compartments(
        &compartments,
        &mut holds,
        &compartments_bounded,
        &mut holds_bounded,
        &requests,
        |_code: &String, parts: Vec<i32>| Ok(parts),
        |_code: &String, parts: Vec<i32>| parts,
    );
    assert!(res.is_ok());
    assert_eq!(codes(&holds), vec![s("H0"), s("H1")]);
    assert_eq!(holds[0].1, vec![0]);
    assert_eq!(holds[1].1, vec![10, 30]);
    assert_eq!(holds_bounded.len(), 1);
    assert_eq!(codes(&holds_bounded[0].1), vec![s("H0"), s("H1")]);
    assert_eq!(holds_bounded[0].1[1].1, vec![1, 3]);
}

#[test]
fn new_partition_gets_its_own_map() {
    let compartments = vec![(s("1"), 10)];
    let mut holds: Vec<(String, Vec<i32>)> = Vec::new();
    let compartments_bounded = vec![(5usize, vec![(s("1"), 1)]), (7usize, vec![(s("1"), 2)])];
    let mut holds_bounded: Vec<(usize, Vec<(String, Vec<i32>)>)> = vec![(7, Vec::new())];
    let requests = vec![(s("H"), vec![s("1")])];
    let res: Result<(), String> = update_hold_compartments(
        &compartments,
        &mut holds,
        &compartments_bounded,
        &mut holds_bounded,
        &requests,
        |_code: &String, parts: Vec<i32>| Ok(parts),
        |_code: &String, parts: Vec<i32>| parts,
    );
    assert!(res.is_ok());
    assert_eq!(holds_bounded.iter().map(|e| e.0).collect::<Vec<_>>(), vec![7, 5]);
    assert_eq!(holds_bounded[0].1, vec![(s("H"), vec![2])]);
    assert_eq!(holds_bounded[1].1, vec![(s("H"), vec![1])]);
}

#[test]
fn build_error_stops_but_keeps_what_was_added() {
    let compartments = vec![(s("1"), 10)];
    let mut holds: Vec<(String, Vec<i32>)> = vec![(s("A"), vec![])];
    let compartments_bounded: Vec<(usize, Vec<(String, i32)>)> = Vec::new();
    let mut holds_bounded: Vec<(usize, Vec<(String, Vec<i32>)>)> = Vec::new();
    let requests = vec![(s("B"), vec![s("1")]), (s("C"), vec![])];
    let res = update_hold_compartments(
        &compartments,
        &mut holds,
        &compartments_bounded,
        &mut holds_bounded,
        &requests,
        |code: &String, parts: Vec<i32>| {
            if parts.is_empty() {
                Err(format!("no parts for {code}"))
            } else {
                Ok(parts)
            }
        },
        |_code: &String, parts: Vec<i32>| parts,
    );
    assert_eq!(res, Err(s("no parts for C")));
    assert_eq!(codes(&holds), vec![s("A"), s("B")]);
}

#[test]
fn new_holds_and_partitions_come_in_request_and_partition_order() {
    let compartments = vec![(s("1"), 10), (s("2"), 20)];
    let mut holds: Vec<(String, Vec<i32>)> = Vec::new();
    let compartments_bounded = vec![(9usize, vec![(s("1"), 1)]), (4usize, vec![(s("2"), 2)])];
    let mut holds_bounded: Vec<(usize, Vec<(String, Vec<i32>)>)> = Vec::new();
    let requests = vec![(s("Z"), vec![s("1")]), (s("A"), vec![s("2")]), (s("M"), vec![])];
    let res: Result<(), String> = update_hold_compartments(
        &compartments,
        &mut holds,
        &compartments_bounded,
        &mut holds_bounded,
        &requests,
        |_code: &String, parts: Vec<i32>| Ok(parts),
        |_code: &String, parts: Vec<i32>| parts,
    );
    assert!(res.is_ok());
    assert_eq!(codes(&holds), vec![s("Z"), s("A"), s("M")]);
    assert_eq!(holds_bounded.iter().map(|e| e.0).collect::<Vec<_>>(), vec![9, 4]);
    assert_eq!(codes(&holds_bounded[0].1), vec![s("Z"), s("A"), s("M")]);
    assert_eq!(holds_bounded[1].1, vec![(s("Z"), vec![]), (s("A"), vec![2]), (s("M"), vec![])]);
}

#[test]
fn grain_moments_of_new_holds_join_the_curves_of_their_parts() {
    let mut moments: Vec<(String, Vec<char>)> =
        vec![(s("1"), vec!['a', 'b']), (s("2"), vec!['c']), (s("H0"), vec!['z'])];
    let requests = vec![
        (s("H1"), vec![s("2"), s("9"), s("1")]),
        (s("H0"), vec![s("1")]),
        (s("H2"), vec![s("H1"), s("2")]),
        (s("H1"), vec![s("1")]),
    ];
    update_grain_moments(&mut moments, &requests);
    assert_eq!(
        moments,
        vec![
            (s("1"), vec!['a', 'b']),
            (s("2"), vec!['c']),
            (s("H0"), vec!['z']),
            (s("H1"), vec!['c', 'a', 'b']),
            (s("H2"), vec!['c', 'a', 'b', 'c']),
        ]
    );
}

#[test]
fn grain_moments_unchanged_when_all_holds_are_known() {
    let mut moments: Vec<(String, Vec<u8>)> = vec![(s("H"), vec![1])];
    update_grain_moments(&mut moments, &vec![(s("H"), vec![s("H")])]);
    assert_eq!(moments, vec![(s("H"), vec![1])]);
    update_grain_moments(&mut moments, &Vec::new());
    assert_eq!(moments, vec![(s("H"), vec![1])]);
}

#[test]
fn maxima_in_compartment_order() {
    let maxima = vec![(s("B"), (None, 2.5)), (s("A"), (Some(1.0), 4.0))];
    let res = compartment_maxima(&vec![s("A"), s("B"), s("A")], &maxima);
    assert_eq!(res, Ok(vec![(Some(1.0), 4.0), (None, 2.5), (Some(1.0), 4.0)]));
    assert_eq!(compartment_maxima(&Vec::new(), &maxima), Ok(Vec::new()));
}

#[test]
fn missing_maximum_names_the_first_compartment_without_one() {
    let maxima = vec![(s("A"), 1u32)];
    assert_eq!(compartment_maxima(&vec![s("A"), s("C"), s("D")], &maxima), Err(1));
    assert_eq!(compartment_maxima(&vec![s("X")], &Vec::<(String, u8)>::new()), Err(0));
}

#[test]
fn error_keeps_earlier_requests_in_full_and_nothing_later() {
    let compartments = vec![(s("1"), 10)];
    let mut holds: Vec<(String, Vec<i32>)> = Vec::new();
    let compartments_bounded = vec![(3usize, vec![(s("1"), 1)])];
    let mut holds_bounded: Vec<(usize, Vec<(String, Vec<i32>)>)> = Vec::new();
    let requests = vec![(s("A"), vec![s("1")]), (s("B"), vec![]), (s("C"), vec![s("1")])];
    let res = update_hold_compartments(
        &compartments,
        &mut holds,
        &compartments_bounded,
        &mut holds_bounded,
        &requests,
        |code: &String, parts: Vec<i32>| {
            if parts.is_empty() {
                Err(format!("no parts for {code}"))
            } else {
                Ok(parts)
            }
        },
        |_code: &String, parts: Vec<i32>| parts,
    );
    assert_eq!(res, Err(s("no parts for B")));
    assert_eq!(holds, vec![(s("A"), vec![10])]);
    assert_eq!(holds_bounded, vec![(3, vec![(s("A"), vec![1])])]);
}

#[test]
fn no_requests_change_nothing() {
    let compartments = vec![(s("1"), 10)];
    let mut holds: Vec<(String, Vec<i32>)> = vec![(s("H"), vec![10])];
    let compartments_bounded = vec![(3usize, vec![(s("1"), 1)])];
    let mut holds_bounded: Vec<(usize, Vec<(String, Vec<i32>)>)> = Vec::new();
    let res: Result<(), String> = update_hold_compartments(
        &compartments,
        &mut holds,
        &compartments_bounded,
        &mut holds_bounded,
        &Vec::new(),
        |_code: &String, parts: Vec<i32>| Ok(parts),
        |_code: &String, parts: Vec<i32>| parts,
    );
    assert!(res.is_ok());
    assert_eq!(holds, vec![(s("H"), vec![10])]);
    assert!(holds_bounded.is_empty());
}
