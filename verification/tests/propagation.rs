use td_util::string::{InternString, Interner};
use td_util::sudo::requires_sudo_recursively;
use td_util::targets::{Target, TargetLabelKey, Targets};

fn target(interner: &mut Interner, name: &str, deps: &[&str], uses_sudo: bool) -> Target {
    let package = InternString::new(interner, "foo//");
    let labels = if uses_sudo {
        vec![InternString::new(interner, "uses_sudo")]
    } else {
        Vec::new()
    };
    let deps = deps
        .iter()
        .map(|x| TargetLabelKey {
            package,
            name: InternString::new(interner, x),
        })
        .collect();
    Target {
        package,
        name: InternString::new(interner, name),
        deps,
        labels,
    }
}

fn sudo_names(interner: &mut Interner, targets: Vec<Target>) -> Vec<String> {
    let targets = Targets::new(targets);
    let keys = requires_sudo_recursively(interner, &targets);
    let mut res = keys
        .iter()
        .map(|x| x.name.as_str(interner).to_owned())
        .collect::<Vec<_>>();
    res.sort();
    res
}

#[test]
fn test_requires_sudo_recursively() {
    let mut interner = Interner::new();
    let targets = Targets::new(vec![
        // the leaf node requires sudo
        target(&mut interner, "1", &[], true),
        target(&mut interner, "1a", &["1"], false),
        target(&mut interner, "1b", &["1a"], false),
        // middle node requires sudo
        target(&mut interner, "2", &[], false),
        target(&mut interner, "2a", &["2"], true),
        target(&mut interner, "2b", &["2a"], false),
        // root node requires sudo
        target(&mut interner, "3", &[], false),
        target(&mut interner, "3a", &["3"], false),
        target(&mut interner, "3b", &["3a"], true),
        // no sudo
        target(&mut interner, "4", &[], false),
        target(&mut interner, "4a", &["4"], false),
        target(&mut interner, "4b", &["4a"], false),
        // one of the dependencies requires sudo
        target(&mut interner, "5", &[], false),
        target(&mut interner, "5a", &["5"], false),
        target(&mut interner, "5b", &[], true),
        target(&mut interner, "5c", &["5a", "5b"], false),
        // multiple visits that creates early return
        target(&mut interner, "6", &[], true),
        target(&mut interner, "6a", &["6"], true),
        target(&mut interner, "6b", &["6a"], false),
    ]);
    let mut res = requires_sudo_recursively(&mut interner, &targets)
        .iter()
        .map(|x| x.name.as_str(&interner).to_owned())
        .collect::<Vec<_>>();
    res.sort();

    assert_eq!(
        res,
        vec![
            "1", "1a", "1b", "2a", "2b", "3b", "5b", "5c", "6", "6a", "6b"
        ]
    );
}

#[test]
fn test_sudo_leaf_marked() {
    let mut interner = Interner::new();
    let ts = vec![
        target(&mut interner, "1", &[], true),
        target(&mut interner, "1a", &["1"], false),
        target(&mut interner, "1b", &["1a"], false),
    ];
    let res = sudo_names(&mut interner, ts);
    assert_eq!(res, vec!["1", "1a", "1b"]);
}

#[test]
fn test_sudo_middle_marked() {
    let mut interner = Interner::new();
    let ts = vec![
        target(&mut interner, "2", &[], false),
        target(&mut interner, "2a", &["2"], true),
        target(&mut interner, "2b", &["2a"], false),
    ];
    let res = sudo_names(&mut interner, ts);
    // "2" is upstream of the mark, not downstream: it stays out.
    assert_eq!(res, vec!["2a", "2b"]);
}

#[test]
fn test_sudo_diamond() {
    let mut interner = Interner::new();
    let ts = vec![
        target(&mut interner, "5", &[], false),
        target(&mut interner, "5a", &["5"], false),
        target(&mut interner, "5b", &[], true),
        target(&mut interner, "5c", &["5a", "5b"], false),
    ];
    let res = sudo_names(&mut interner, ts);
    assert_eq!(res, vec!["5b", "5c"]);
}

#[test]
fn test_sudo_overlapping_marks_no_duplicates() {
    let mut interner = Interner::new();
    let ts = vec![
        target(&mut interner, "6", &[], true),
        target(&mut interner, "6a", &["6"], true),
        target(&mut interner, "6b", &["6a"], false),
    ];
    let res = sudo_names(&mut interner, ts);
    // "6a" is both a direct seed and reachable from "6", yet appears once.
    assert_eq!(res, vec!["6", "6a", "6b"]);
}

#[test]
fn test_sudo_empty_and_unmarked() {
    let mut interner = Interner::new();
    let res = sudo_names(&mut interner, Vec::new());
    assert_eq!(res, Vec::<String>::new());

    let ts = vec![
        target(&mut interner, "a", &[], false),
        target(&mut interner, "b", &["a"], false),
    ];
    let res = sudo_names(&mut interner, ts);
    assert_eq!(res, Vec::<String>::new());
}

#[test]
fn test_sudo_disconnected_marked_alone() {
    let mut interner = Interner::new();
    let ts = vec![
        target(&mut interner, "lone", &[], true),
        target(&mut interner, "other", &[], false),
    ];
    let res = sudo_names(&mut interner, ts);
    assert_eq!(res, vec!["lone"]);
}

#[test]
fn test_sudo_cycle_terminates() {
    let mut interner = Interner::new();
    // a -> b -> c -> a, with "a" marked: every cycle member is reachable
    // backward from the mark and appears exactly once.
    let ts = vec![
        target(&mut interner, "a", &["c"], true),
        target(&mut interner, "b", &["a"], false),
        target(&mut interner, "c", &["b"], false),
    ];
    let res = sudo_names(&mut interner, ts);
    assert_eq!(res, vec!["a", "b", "c"]);
}

#[test]
fn test_sudo_high_fan_in() {
    let mut interner = Interner::new();
    // Many targets all depending on one marked hub.
    let mut ts = vec![target(&mut interner, "hub", &[], true)];
    for i in 0..50 {
        let name = format!("user{}", i);
        ts.push(target(&mut interner, &name, &["hub"], false));
    }
    let res = sudo_names(&mut interner, ts);
    assert_eq!(res.len(), 51);
    let mut dedup = res.clone();
    dedup.dedup();
    assert_eq!(dedup.len(), 51);
}

#[test]
fn test_sudo_monotone_extra_mark() {
    let mut interner = Interner::new();
    let graph = |interner: &mut Interner, extra_mark: bool| {
        vec![
            target(interner, "1", &[], true),
            target(interner, "1a", &["1"], false),
            target(interner, "2", &[], extra_mark),
            target(interner, "2a", &["2"], false),
        ]
    };
    let g1 = graph(&mut interner, false);
    let before = sudo_names(&mut interner, g1);
    let g2 = graph(&mut interner, true);
    let after = sudo_names(&mut interner, g2);
    // Marking one more target only adds closure members.
    for name in &before {
        assert!(after.contains(name));
    }
    assert_eq!(before, vec!["1", "1a"]);
    assert_eq!(after, vec!["1", "1a", "2", "2a"]);
}
