use data_generator::error::Error;
use data_generator::levels::dependency_levels;

#[test]
fn tables_without_links_share_level_zero() {
    let deps: Vec<Vec<usize>> = vec![vec![], vec![], vec![]];
    let levels = dependency_levels(&deps).unwrap();
    assert_eq!(levels, vec![vec![0, 1, 2]]);
}

#[test]
fn no_tables_no_levels() {
    let deps: Vec<Vec<usize>> = vec![];
    let levels = dependency_levels(&deps).unwrap();
    assert!(levels.is_empty());
}

#[test]
fn a_chain_takes_one_level_per_table() {
    // 0 -> 1 -> 2
    let deps: Vec<Vec<usize>> = vec![vec![1], vec![2], vec![]];
    let levels = dependency_levels(&deps).unwrap();
    assert_eq!(levels, vec![vec![2], vec![1], vec![0]]);
}

#[test]
fn a_table_stands_right_after_its_last_target() {
    // 3 links to 0 (level 0) and to 2 (level 1); 2 links to 1.
    let deps: Vec<Vec<usize>> = vec![vec![], vec![], vec![1], vec![0, 2], vec![0]];
    let levels = dependency_levels(&deps).unwrap();
    assert_eq!(levels, vec![vec![0, 1], vec![2, 4], vec![3]]);
}

#[test]
fn every_edge_points_to_an_earlier_level() {
    let deps: Vec<Vec<usize>> = vec![vec![4, 2], vec![], vec![1, 1], vec![0], vec![1], vec![3, 4]];
    let levels = dependency_levels(&deps).unwrap();
    let mut level_of = vec![usize::MAX; deps.len()];
    let mut seen = 0;
    for (l, tables) in levels.iter().enumerate() {
        for t in tables {
            assert_eq!(level_of[*t], usize::MAX);
            level_of[*t] = l;
            seen += 1;
        }
    }
    assert_eq!(seen, deps.len());
    for (a, targets) in deps.iter().enumerate() {
        for b in targets {
            assert!(level_of[*b] < level_of[a]);
        }
    }
}

#[test]
fn mutual_links_are_a_circular_dependency() {
    let deps: Vec<Vec<usize>> = vec![vec![1], vec![0]];
    assert!(matches!(dependency_levels(&deps), Err(Error::CircularDependency)));
}

#[test]
fn a_link_to_itself_is_a_circular_dependency() {
    let deps: Vec<Vec<usize>> = vec![vec![], vec![1]];
    assert!(matches!(dependency_levels(&deps), Err(Error::CircularDependency)));
}

#[test]
fn a_circle_behind_levelled_tables_is_found() {
    let deps: Vec<Vec<usize>> = vec![vec![], vec![0], vec![3, 0], vec![4], vec![2]];
    assert!(matches!(dependency_levels(&deps), Err(Error::CircularDependency)));
}
