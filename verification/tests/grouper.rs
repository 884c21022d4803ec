use ps_organizer::grouper::compute_structure;
use ps_organizer::grouper::count_trailing;
use ps_organizer::grouper::digit_count;
use ps_organizer::grouper::find_largest_unit;
use ps_organizer::grouper::format_folder_name;

#[test]
fn find_largest_unit_basic() {
    assert_eq!(find_largest_unit(0), 10);
    assert_eq!(find_largest_unit(9), 10);
    assert_eq!(find_largest_unit(99), 10);
    assert_eq!(find_largest_unit(100), 100);
    assert_eq!(find_largest_unit(999), 100);
    assert_eq!(find_largest_unit(1000), 1000);
    assert_eq!(find_largest_unit(9999), 1000);
    assert_eq!(find_largest_unit(10000), 10000);
    assert_eq!(find_largest_unit(45000), 10000);
    assert_eq!(find_largest_unit(100000), 100000);
    assert_eq!(find_largest_unit(1234567), 1000000);
}

#[test]
fn count_trailing_basic() {
    assert_eq!(count_trailing(10), 1);
    assert_eq!(count_trailing(100), 2);
    assert_eq!(count_trailing(1000), 3);
    assert_eq!(count_trailing(10000), 4);
    assert_eq!(count_trailing(100000), 5);
}

#[test]
fn digit_count_basic() {
    assert_eq!(digit_count(0), 1);
    assert_eq!(digit_count(9), 1);
    assert_eq!(digit_count(10), 2);
    assert_eq!(digit_count(99), 2);
    assert_eq!(digit_count(100), 3);
    assert_eq!(digit_count(9999), 4);
    assert_eq!(digit_count(10000), 5);
}

#[test]
fn format_folder_basic() {
    assert_eq!(format_folder_name(1000, 1000, 4, '_'), "1___");
    assert_eq!(format_folder_name(2000, 1000, 4, '_'), "2___");
}

#[test]
fn format_folder_with_front_padding() {
    assert_eq!(format_folder_name(1000, 1000, 5, '_'), "01___");
    assert_eq!(format_folder_name(10000, 1000, 5, '_'), "10___");
}

#[test]
fn format_folder_mixed_units() {
    assert_eq!(format_folder_name(1000, 100, 5, '_'), "010__");
    assert_eq!(format_folder_name(30000, 10000, 5, '_'), "3____");
}

#[test]
fn format_folder_unit_100() {
    assert_eq!(format_folder_name(100, 100, 3, '_'), "1__");
    assert_eq!(format_folder_name(200, 100, 3, '_'), "2__");
}

#[test]
fn format_folder_unit_10() {
    assert_eq!(format_folder_name(10, 10, 2, '_'), "1_");
    assert_eq!(format_folder_name(20, 10, 2, '_'), "2_");
}

#[test]
fn format_folder_with_x_placeholder() {
    assert_eq!(format_folder_name(1000, 1000, 4, 'x'), "1xxx");
    assert_eq!(format_folder_name(100, 100, 3, 'x'), "1xx");
    assert_eq!(format_folder_name(10, 10, 2, 'x'), "1x");
}

#[test]
fn compute_structure_flat_when_under_threshold() {
    let numbers: Vec<u32> = vec![1001, 1002, 1003, 1004, 1005];
    let result = compute_structure(&numbers, 20, '_');

    for &num in &numbers {
        assert_eq!(result.get(&num), Some(&"".to_string()));
    }
}

#[test]
fn compute_structure_splits_with_placeholder() {
    let numbers: Vec<u32> = (1001..=1050).collect();
    let result = compute_structure(&numbers, 20, '_');

    let path_1001 = result.get(&1001).unwrap();
    let path_1050 = result.get(&1050).unwrap();

    assert!(path_1001.contains("100"));
    assert!(path_1050.contains("105"));
    assert_ne!(path_1001, path_1050);
}

#[test]
fn compute_structure_with_x_placeholder() {
    let numbers: Vec<u32> = (1001..=1050).collect();
    let result = compute_structure(&numbers, 20, 'x');

    let path_1001 = result.get(&1001).unwrap();
    assert!(path_1001.contains("100"));
    assert!(path_1001.contains("x"));
}

#[test]
fn compute_structure_mixed_density() {
    let mut numbers: Vec<u32> = (1000..=1100).collect();
    numbers.extend(30000..=30005);

    let result = compute_structure(&numbers, 20, '_');

    let path_1000 = result.get(&1000).unwrap();
    let path_1050 = result.get(&1050).unwrap();
    assert_ne!(path_1000, path_1050);

    let path_30000 = result.get(&30000).unwrap();
    let path_30005 = result.get(&30005).unwrap();
    assert_eq!(path_30000, path_30005);

    assert!(path_30000.contains("3____"));
}

#[test]
fn compute_structure_all_same_folder_when_sparse() {
    let numbers: Vec<u32> = vec![1001, 2001, 3001, 4001, 5001];
    let result = compute_structure(&numbers, 20, '_');

    for &num in &numbers {
        assert_eq!(result.get(&num), Some(&"".to_string()));
    }
}

#[test]
fn folders_sort_correctly() {
    let mut numbers: Vec<u32> = (1000..=1100).collect();
    numbers.extend(30000..=30005);

    let result = compute_structure(&numbers, 20, '_');

    let mut folders: Vec<&String> = result.values().collect();
    folders.sort();
    folders.dedup();

    let sorted: Vec<String> = folders.iter().map(|s| s.to_string()).collect();
    let mut expected = sorted.clone();
    expected.sort();
    assert_eq!(sorted, expected);
}
