use acoustic_drone::grouping::group_by_name;

fn names(v: &[&str]) -> Vec<String> {
    v.iter().map(|s| s.to_string()).collect()
}

#[test]
fn groups_sorted_by_name_with_positions() {
    let g = group_by_name(&names(&["dji", "autel", "dji", "parrot", "autel", "dji"]));
    assert_eq!(
        g,
        vec![
            ("autel".to_string(), vec![1, 4]),
            ("dji".to_string(), vec![0, 2, 5]),
            ("parrot".to_string(), vec![3]),
        ]
    );
}

#[test]
fn empty_and_single_groups() {
    assert!(group_by_name(&vec![]).is_empty());
    assert_eq!(group_by_name(&names(&["x"])), vec![("x".to_string(), vec![0])]);
}

#[test]
fn every_position_in_exactly_one_group() {
    let v = names(&["b", "a", "c", "a", "b", "b", "", "c"]);
    let g = group_by_name(&v);
    let mut seen = vec![0usize; v.len()];
    for (name, pos) in &g {
        for &p in pos {
            assert_eq!(&v[p], name);
            seen[p] += 1;
        }
    }
    assert!(seen.iter().all(|&c| c == 1));
    let keys: Vec<&String> = g.iter().map(|(k, _)| k).collect();
    let mut sorted = keys.clone();
    sorted.sort();
    sorted.dedup();
    assert_eq!(keys, sorted);
}
