use sss::grouping::{group_by_code, group_by_key, last_by_code, sort_by_draught, sort_by_trim};

#[test]
fn group_by_key_sorts_and_merges_runs() {
    let items = vec![(3u64, 'a'), (1, 'b'), (3, 'c'), (2, 'd'), (1, 'e')];
    let groups = group_by_key(items);
    assert_eq!(
        groups,
        vec![(1, vec!['b', 'e']), (2, vec!['d']), (3, vec!['a', 'c'])]
    );
}

#[test]
fn group_by_key_empty() {
    let items: Vec<(u64, i32)> = Vec::new();
    assert!(group_by_key(items).is_empty());
}

#[test]
fn group_by_key_keeps_every_row_once() {
    let items: Vec<(u64, usize)> = (0..50).map(|i| ((i * 7 % 5) as u64, i)).collect();
    let groups = group_by_key(items);
    let total: usize = groups.iter().map(|g| g.1.len()).sum();
    assert_eq!(total, 50);
    assert_eq!(groups.len(), 5);
    for (k, vals) in &groups {
        assert!(vals.windows(2).all(|w| w[0] < w[1]));
        assert!(vals.iter().all(|v| (v * 7 % 5) as u64 == *k));
    }
}

#[test]
fn sort_by_draught_groups_by_draught() {
    let data = vec![(5u64, (1, 10)), (4, (2, 20)), (5, (3, 30))];
    assert_eq!(
        sort_by_draught(data),
        vec![(4, vec![(2, 20)]), (5, vec![(1, 10), (3, 30)])]
    );
}

#[test]
fn sort_by_trim_two_levels() {
    let data = vec![
        (2u64, 7u64, "r1"),
        (1, 9, "r2"),
        (2, 6, "r3"),
        (1, 9, "r4"),
        (2, 7, "r5"),
    ];
    let series = sort_by_trim(data);
    assert_eq!(
        series,
        vec![
            (1, vec![(9, vec!["r2", "r4"])]),
            (2, vec![(6, vec!["r3"]), (7, vec!["r1", "r5"])]),
        ]
    );
}

#[test]
fn group_by_code_first_appearance_order() {
    let items = vec![
        ("B".to_string(), 1),
        ("A".to_string(), 2),
        ("B".to_string(), 3),
        ("C".to_string(), 4),
        ("A".to_string(), 5),
    ];
    let groups = group_by_code(items);
    assert_eq!(
        groups,
        vec![
            ("B".to_string(), vec![1, 3]),
            ("A".to_string(), vec![2, 5]),
            ("C".to_string(), vec![4]),
        ]
    );
    assert_eq!(groups.iter().map(|g| g.1.len()).sum::<usize>(), 5);
}

#[test]
fn last_by_code_keeps_last_value() {
    let items = vec![
        ("x".to_string(), 1.5),
        ("y".to_string(), 2.0),
        ("x".to_string(), 3.5),
    ];
    let res = last_by_code(items);
    assert_eq!(res, vec![("x".to_string(), 3.5), ("y".to_string(), 2.0)]);
}
