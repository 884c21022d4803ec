use ps_organizer::planner::plan_moves;
use ps_organizer::planner::resolve_conflict;
use ps_organizer::types::FileEntry;

#[test]
fn resolve_conflict_adds_suffix() {
    assert_eq!(resolve_conflict("1010.cpp", 1), "1010_conflict1.cpp");
    assert_eq!(resolve_conflict("1010.cpp", 2), "1010_conflict2.cpp");
}

#[test]
fn resolve_conflict_no_extension() {
    assert_eq!(resolve_conflict("readme", 1), "readme_conflict1");
}

#[test]
fn plan_moves_no_move_when_already_correct() {
    let entries = vec![FileEntry {
        current_path: "1010.cpp".to_string(),
        problem_number: Some(1010),
        filename: "1010.cpp".to_string(),
    }];

    let moves = plan_moves(&entries, 20);
    assert!(moves.is_empty());
}

#[test]
fn plan_moves_etc_for_non_matching() {
    let entries = vec![FileEntry {
        current_path: "solution.cpp".to_string(),
        problem_number: None,
        filename: "solution.cpp".to_string(),
    }];

    let moves = plan_moves(&entries, 20);
    assert_eq!(moves.len(), 1);
    assert_eq!(moves[0].to, "etc/solution.cpp".to_string());
}

#[test]
fn plan_moves_handles_conflict() {
    let entries = vec![
        FileEntry {
            current_path: "1010.cpp".to_string(),
            problem_number: Some(1010),
            filename: "1010.cpp".to_string(),
        },
        FileEntry {
            current_path: "old/1010.cpp".to_string(),
            problem_number: Some(1010),
            filename: "1010.cpp".to_string(),
        },
    ];

    let moves = plan_moves(&entries, 20);

    let destinations: Vec<String> = moves.iter().map(|m| m.to.clone()).collect();
    assert!(
        destinations.contains(&"1010.cpp".to_string())
            || destinations.contains(&"1010_conflict1.cpp".to_string())
    );
}

#[test]
fn plan_moves_splits_when_over_threshold() {
    let entries: Vec<FileEntry> = (1001..=1050)
        .map(|n| FileEntry {
            current_path: format!("{n}.cpp"),
            problem_number: Some(n),
            filename: format!("{n}.cpp"),
        })
        .collect();

    let moves = plan_moves(&entries, 20);

    assert!(!moves.is_empty());
    let sample_move = moves.iter().find(|m| m.from == "1001.cpp");
    assert!(sample_move.is_some());
    assert!(sample_move.unwrap().to.contains("1000"));
}
