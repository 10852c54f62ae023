use code2prompt::sample::{sample, sample_in_order};
use code2prompt::walk::FileRecord;

fn record(relative: &str) -> FileRecord {
    FileRecord {
        path: format!("/p/{}", relative),
        extension: "rs".to_string(),
        code: format!("// {}", relative),
        relative: relative.to_string(),
    }
}

fn files() -> Vec<FileRecord> {
    vec![record("a.rs"), record("src/b.rs"), record("src/c.rs"), record("d/e/f.rs")]
}

fn paths(files: &[FileRecord]) -> Vec<String> {
    files.iter().map(|f| f.relative.clone()).collect()
}

#[test]
fn full_rate_changes_nothing() {
    let tokens = vec![10, 20, 30, 40];
    for rate in [100u8, 101, 255] {
        let (tree, kept) = sample_in_order(
            "p",
            "TREE".to_string(),
            files(),
            &tokens,
            &vec![3, 2, 1, 0],
            rate,
        );
        assert_eq!(tree, "TREE");
        assert_eq!(paths(&kept), paths(&files()));
        let (tree, kept) = sample("p", "TREE".to_string(), files(), &tokens, rate);
        assert_eq!(tree, "TREE");
        assert_eq!(paths(&kept), paths(&files()));
    }
}

#[test]
fn zero_rate_leaves_nothing() {
    let tokens = vec![10, 20, 30, 40];
    let (tree, kept) = sample_in_order("p", "TREE".to_string(), files(), &tokens, &vec![0, 1, 2, 3], 0);
    assert_eq!(tree, "");
    assert!(kept.is_empty());
    let (tree, kept) = sample("p", "TREE".to_string(), files(), &tokens, 0);
    assert_eq!(tree, "");
    assert!(kept.is_empty());
}

#[test]
fn files_are_taken_in_order_until_the_share_is_reached() {
    // total 100, rate 35: target 35; order c (30), a (10), ...: 30 < 35, 40 >= 35
    let tokens = vec![10, 20, 30, 40];
    let (tree, kept) = sample_in_order(
        "p",
        "TREE".to_string(),
        files(),
        &tokens,
        &vec![2, 0, 3, 1],
        35,
    );
    assert_eq!(paths(&kept), vec!["src/c.rs", "a.rs"]);
    assert_eq!(tree, "p\n├── src\n│   └── c.rs\n└── a.rs\n");
}

#[test]
fn share_is_rounded_half_up() {
    // total 10: rate 25 gives 2.5, rounded to 3; rate 24 gives 2.4, rounded to 2
    let tokens = vec![1, 1, 1, 7];
    let order = vec![0, 1, 2, 3];
    let (_, kept) = sample_in_order("p", String::new(), files(), &tokens, &order, 25);
    assert_eq!(kept.len(), 3);
    let (_, kept) = sample_in_order("p", String::new(), files(), &tokens, &order, 24);
    assert_eq!(kept.len(), 2);
}

#[test]
fn share_of_nothing_takes_nothing() {
    let tokens = vec![0, 0, 0, 0];
    let (tree, kept) = sample_in_order("p", String::new(), files(), &tokens, &vec![1, 0, 2, 3], 50);
    assert!(kept.is_empty());
    assert_eq!(tree, "p\n");
}

#[test]
fn random_sample_meets_the_budget_and_draws_its_files() {
    let tokens = vec![10usize, 20, 30, 40];
    for rate in [1u8, 10, 33, 50, 75, 99] {
        for _ in 0..20 {
            let (tree, kept) = sample("p", "TREE".to_string(), files(), &tokens, rate);
            let target = (100 * rate as usize + 50) / 100;
            let sum: usize = kept
                .iter()
                .map(|f| tokens[files().iter().position(|g| g.relative == f.relative).unwrap()])
                .sum();
            assert!(sum >= target || kept.len() == 4);
            let mut seen = paths(&kept);
            seen.sort();
            seen.dedup();
            assert_eq!(seen.len(), kept.len());
            for f in &kept {
                let name = f.relative.rsplit('/').next().unwrap();
                assert!(tree.contains(name));
            }
            for f in files() {
                let name = f.relative.rsplit('/').next().unwrap().to_string();
                let taken = kept.iter().any(|k| k.relative == f.relative);
                assert_eq!(tree.contains(&name), taken);
            }
            assert!(tree.starts_with("p\n"));
        }
    }
}

#[test]
fn random_order_varies() {
    let many: Vec<FileRecord> = (0..40).map(|i| record(&format!("f{}.rs", i))).collect();
    let tokens = vec![1usize; 40];
    let mut firsts = std::collections::BTreeSet::new();
    for _ in 0..60 {
        let (_, kept) = sample("p", String::new(), many.clone(), &tokens, 3);
        assert_eq!(kept.len(), 1);
        firsts.insert(kept[0].relative.clone());
    }
    assert!(firsts.len() > 1);
}
