use std::collections::HashMap;
use std::collections::HashSet;

use ps_organizer::cli::parse_placeholder;
use ps_organizer::digits::u64_to_string;
use ps_organizer::grouper::compute_structure;
use ps_organizer::planner::plan_moves;
use ps_organizer::types::FileEntry;
use ps_organizer::types::MoveOperation;

fn numbered_entries(range: std::ops::RangeInclusive<u32>) -> Vec<FileEntry> {
    range
        .map(|n| FileEntry {
            current_path: format!("{n}.cpp"),
            problem_number: Some(n),
            filename: format!("{n}.cpp"),
        })
        .collect()
}

#[test]
fn ten_flat_files_plan_nothing() {
    let entries = numbered_entries(1001..=1010);
    assert!(plan_moves(&entries, 20).is_empty());
}

#[test]
fn replanning_an_organized_tree_plans_nothing() {
    // organize fifty files, apply the moves in memory, scan the result
    let entries = numbered_entries(1001..=1050);
    let moves = plan_moves(&entries, 20);
    assert!(!moves.is_empty());

    let moved: HashMap<String, String> =
        moves.iter().map(|m| (m.from.clone(), m.to.clone())).collect();
    let organized: Vec<FileEntry> = entries
        .iter()
        .map(|e| FileEntry {
            current_path: moved
                .get(&e.current_path)
                .cloned()
                .unwrap_or_else(|| e.current_path.clone()),
            problem_number: e.problem_number,
            filename: e.filename.clone(),
        })
        .collect();

    assert!(plan_moves(&organized, 20).is_empty());
}

#[test]
fn no_folder_exceeds_threshold_above_min_unit() {
    let mut numbers: Vec<u32> = (1000..=1100).collect();
    numbers.extend(30000..=30005);
    let threshold = 20;
    let result = compute_structure(&numbers, threshold, '_');

    let mut per_folder: HashMap<&String, usize> = HashMap::new();
    for folder in result.values() {
        *per_folder.entry(folder).or_insert(0) += 1;
    }
    for (_, count) in per_folder {
        assert!(count <= threshold);
    }
}

#[test]
fn oversized_leaf_accepted_at_min_unit() {
    // thirty identifiers under 30, threshold 5: every bucket of ten is
    // oversized, but no finer decimal split exists, so they stay
    let numbers: Vec<u32> = (0..30).collect();
    let result = compute_structure(&numbers, 5, '_');

    let folder_of_0 = result.get(&0).unwrap();
    for n in 0..10 {
        assert_eq!(result.get(&n).unwrap(), folder_of_0);
    }
    let folder_of_10 = result.get(&10).unwrap();
    assert_ne!(folder_of_0, folder_of_10);
}

#[test]
fn sibling_folder_names_share_width_and_order() {
    let mut numbers: Vec<u32> = (1000..=1100).collect();
    numbers.extend(30000..=30005);
    let result = compute_structure(&numbers, 20, '_');

    let folders: HashSet<&String> = result.values().filter(|f| !f.is_empty()).collect();
    let mut lens: HashSet<usize> = HashSet::new();
    for f in &folders {
        lens.insert(f.len());
    }
    assert_eq!(lens.len(), 1);

    // lexicographic order of names matches numeric order of contents
    let path_1000 = result.get(&1000).unwrap();
    let path_1090 = result.get(&1090).unwrap();
    let path_30000 = result.get(&30000).unwrap();
    assert!(path_1000 < path_1090);
    assert!(path_1090 < path_30000);
}

#[test]
fn empty_identifier_set_gives_empty_mapping() {
    let numbers: Vec<u32> = Vec::new();
    let result = compute_structure(&numbers, 20, '_');
    assert!(result.is_empty());
}

#[test]
fn threshold_zero_still_terminates() {
    let numbers: Vec<u32> = vec![5];
    let result = compute_structure(&numbers, 0, '_');
    assert_eq!(result.get(&5), Some(&"0_".to_string()));
}

#[test]
fn destinations_are_a_bijection() {
    // three files named alike plus ordinary ones: nothing dropped,
    // nothing duplicated
    let mut entries = numbered_entries(1001..=1010);
    entries.push(FileEntry {
        current_path: "old/1001.cpp".to_string(),
        problem_number: Some(1001),
        filename: "1001.cpp".to_string(),
    });
    entries.push(FileEntry {
        current_path: "backup/1001.cpp".to_string(),
        problem_number: Some(1001),
        filename: "1001.cpp".to_string(),
    });
    entries.push(FileEntry {
        current_path: "notes.c".to_string(),
        problem_number: None,
        filename: "notes.c".to_string(),
    });

    let moves = plan_moves(&entries, 20);
    let mut destinations: HashSet<String> = HashSet::new();
    let mut sources: HashSet<String> = HashSet::new();
    for m in &moves {
        destinations.insert(m.to.clone());
        sources.insert(m.from.clone());
    }
    assert_eq!(destinations.len(), moves.len());
    assert_eq!(sources.len(), moves.len());
    // unmoved entries keep their own distinct paths as destinations
    for e in &entries {
        let dest_count = moves.iter().filter(|m| m.from == e.current_path).count();
        assert!(dest_count <= 1);
    }
}

#[test]
fn three_records_one_name() {
    let entries = vec![
        FileEntry {
            current_path: "a/1010.cpp".to_string(),
            problem_number: Some(1010),
            filename: "1010.cpp".to_string(),
        },
        FileEntry {
            current_path: "b/1010.cpp".to_string(),
            problem_number: Some(1010),
            filename: "1010.cpp".to_string(),
        },
        FileEntry {
            current_path: "c/1010.cpp".to_string(),
            problem_number: Some(1010),
            filename: "1010.cpp".to_string(),
        },
    ];
    let moves = plan_moves(&entries, 20);
    let destinations: HashSet<String> = moves.iter().map(|m| m.to.clone()).collect();
    let expected: HashSet<String> = vec![
        "1010.cpp".to_string(),
        "1010_conflict1.cpp".to_string(),
        "1010_conflict2.cpp".to_string(),
    ]
    .into_iter()
    .collect();
    assert_eq!(destinations, expected);
}

#[test]
fn conflict_resolution_ignores_pair_order() {
    // whichever of the two comes first keeps the original name; the
    // other receives _conflict1
    let first = FileEntry {
        current_path: "x/1010.cpp".to_string(),
        problem_number: Some(1010),
        filename: "1010.cpp".to_string(),
    };
    let second = FileEntry {
        current_path: "y/1010.cpp".to_string(),
        problem_number: Some(1010),
        filename: "1010.cpp".to_string(),
    };

    for entries in [
        vec![first.clone(), second.clone()],
        vec![second.clone(), first.clone()],
    ] {
        let moves = plan_moves(&entries, 20);
        let destinations: HashSet<String> = moves.iter().map(|m| m.to.clone()).collect();
        let expected: HashSet<String> =
            vec!["1010.cpp".to_string(), "1010_conflict1.cpp".to_string()]
                .into_iter()
                .collect();
        assert_eq!(destinations, expected);
        assert_eq!(moves[0].to, "1010.cpp");
        assert_eq!(moves[1].to, "1010_conflict1.cpp");
    }
}

#[test]
fn etc_collects_unnumbered_files() {
    let entries = vec![
        FileEntry {
            current_path: "solution.cpp".to_string(),
            problem_number: None,
            filename: "solution.cpp".to_string(),
        },
        FileEntry {
            current_path: "1001.cpp".to_string(),
            problem_number: Some(1001),
            filename: "1001.cpp".to_string(),
        },
    ];
    let moves = plan_moves(&entries, 20);
    assert_eq!(moves.len(), 1);
    assert_eq!(moves[0].from, "solution.cpp");
    assert_eq!(moves[0].to, "etc/solution.cpp");
}

#[test]
fn placeholder_argument_must_be_one_character() {
    assert_eq!(parse_placeholder("x"), Ok('x'));
    assert_eq!(parse_placeholder("_"), Ok('_'));
    assert!(parse_placeholder("").is_err());
    assert!(parse_placeholder("ab").is_err());
    assert_eq!(
        parse_placeholder("ab").unwrap_err(),
        "placeholder must be exactly one character"
    );
}

#[test]
fn decimal_rendering_is_exact() {
    assert_eq!(u64_to_string(0), "0");
    assert_eq!(u64_to_string(7), "7");
    assert_eq!(u64_to_string(12345), "12345");
    assert_eq!(u64_to_string(18446744073709551615), "18446744073709551615");
}

#[test]
fn move_operation_reports_need() {
    let stay = MoveOperation::new("a.cpp".to_string(), "a.cpp".to_string());
    assert!(!stay.is_needed());
    let go = MoveOperation::new("a.cpp".to_string(), "etc/a.cpp".to_string());
    assert!(go.is_needed());
    assert_eq!(go.from, "a.cpp");
    assert_eq!(go.to, "etc/a.cpp");
}
