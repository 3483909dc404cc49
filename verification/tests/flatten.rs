use file_scrambler::naming::ExtensionPolicy;
use file_scrambler::pass::plan_category;
use file_scrambler::timestamp::{TimestampPolicy, WindowDirection};
use file_scrambler::tree::{plan_flatten, DirTree, Subdir};

fn leaf(files: &[&[u8]]) -> DirTree {
    DirTree { files: files.iter().map(|f| f.to_vec()).collect(), subdirs: Vec::new() }
}

fn policy() -> TimestampPolicy {
    TimestampPolicy { reference: 1_695_340_800, window: 864_000, direction: WindowDirection::After }
}

#[test]
fn flatten_lists_every_nested_file() {
    // catA/sub1/x.csv and catA/sub2/y.csv are both planned to the root,
    // and sub1 and sub2 are both planned for removal.
    let cat = DirTree {
        files: Vec::new(),
        subdirs: vec![
            Subdir { name: b"sub1".to_vec(), tree: leaf(&[b"x.csv"]) },
            Subdir { name: b"sub2".to_vec(), tree: leaf(&[b"y.csv"]) },
        ],
    };
    let plan = plan_flatten(&cat);
    assert_eq!(plan.moves, vec![
        vec![b"sub1".to_vec(), b"x.csv".to_vec()],
        vec![b"sub2".to_vec(), b"y.csv".to_vec()],
    ]);
    assert_eq!(plan.removals, vec![vec![b"sub1".to_vec()], vec![b"sub2".to_vec()]]);
}

#[test]
fn flatten_removes_descendants_before_ancestors() {
    let cat = DirTree {
        files: vec![b"top.csv".to_vec()],
        subdirs: vec![Subdir {
            name: b"outer".to_vec(),
            tree: DirTree {
                files: vec![b"mid.csv".to_vec()],
                subdirs: vec![Subdir { name: b"inner".to_vec(), tree: leaf(&[b"deep.csv"]) }],
            },
        }],
    };
    let plan = plan_flatten(&cat);
    assert_eq!(plan.moves, vec![
        vec![b"top.csv".to_vec()],
        vec![b"outer".to_vec(), b"mid.csv".to_vec()],
        vec![b"outer".to_vec(), b"inner".to_vec(), b"deep.csv".to_vec()],
    ]);
    assert_eq!(plan.removals, vec![
        vec![b"outer".to_vec(), b"inner".to_vec()],
        vec![b"outer".to_vec()],
    ]);
}

#[test]
fn flatten_of_empty_directory_plans_nothing() {
    let plan = plan_flatten(&leaf(&[]));
    assert!(plan.moves.is_empty());
    assert!(plan.removals.is_empty());
}

#[test]
fn two_nested_files_become_001_and_002() {
    // Root holds catA/sub1/x.csv and catA/sub2/y.csv; after the planned
    // pass catA holds exactly the files 001.csv and 002.csv and the two
    // subdirectories are gone.
    let cat = DirTree {
        files: Vec::new(),
        subdirs: vec![
            Subdir { name: b"sub1".to_vec(), tree: leaf(&[b"x.csv"]) },
            Subdir { name: b"sub2".to_vec(), tree: leaf(&[b"y.csv"]) },
        ],
    };
    let plan = plan_category(&b"catA".to_vec(), &cat, &ExtensionPolicy::Preserve, &policy());
    assert_eq!(plan.name, b"catA".to_vec());
    assert_eq!(plan.moves.len(), 2);
    assert_eq!(plan.removals, vec![vec![b"sub1".to_vec()], vec![b"sub2".to_vec()]]);
    let mut sources: Vec<Vec<u8>> = plan.renames.iter().map(|op| op.from.clone()).collect();
    sources.sort();
    assert_eq!(sources, vec![b"x.csv".to_vec(), b"y.csv".to_vec()]);
    let targets: Vec<Vec<u8>> = plan.renames.iter().map(|op| op.to.clone()).collect();
    assert_eq!(targets, vec![b"001.csv".to_vec(), b"002.csv".to_vec()]);
    assert_eq!(plan.temp_dir, b"temp".to_vec());
    assert_eq!(plan.steps.len(), 4);
    assert_eq!(plan.mtimes.len(), 2);
    for (k, mt) in plan.mtimes.iter().enumerate() {
        assert_eq!(mt.name, plan.renames[k].to);
        assert!(mt.time >= 1_695_340_800);
        assert!(mt.time <= 1_695_340_800 + 864_000);
    }
}

#[test]
fn colliding_basenames_rename_the_survivor_once() {
    // catA/sub1/x.csv and catA/sub2/x.csv collide at the root; the rename
    // pass works on the one surviving name.
    let cat = DirTree {
        files: Vec::new(),
        subdirs: vec![
            Subdir { name: b"sub1".to_vec(), tree: leaf(&[b"x.csv"]) },
            Subdir { name: b"sub2".to_vec(), tree: leaf(&[b"x.csv"]) },
        ],
    };
    let plan = plan_category(&b"catA".to_vec(), &cat, &ExtensionPolicy::Preserve, &policy());
    assert_eq!(plan.moves.len(), 2);
    assert_eq!(plan.renames.len(), 1);
    assert_eq!(plan.renames[0].from, b"x.csv".to_vec());
    assert_eq!(plan.renames[0].to, b"001.csv".to_vec());
    assert_eq!(plan.steps.len(), 2);
}

#[test]
fn second_run_keeps_the_name_set() {
    // A category already flattened by an earlier pass holds 001.csv,
    // 002.csv, 003.csv. Another pass reassigns exactly that name set: the
    // staged steps run front to back without losing a file, whatever order
    // the shuffle draws.
    for _ in 0..30 {
        let cat = DirTree {
            files: vec![b"001.csv".to_vec(), b"002.csv".to_vec(), b"003.csv".to_vec()],
            subdirs: Vec::new(),
        };
        let plan =
            plan_category(&b"catA".to_vec(), &cat, &ExtensionPolicy::Fixed(b".csv".to_vec()), &policy());
        let mut model: std::collections::HashMap<Vec<Vec<u8>>, Vec<u8>> =
            std::collections::HashMap::new();
        for f in &cat.files {
            model.insert(vec![f.clone()], f.clone());
        }
        for st in &plan.steps {
            let file = model.remove(&st.from).expect("a step lost its pending source");
            assert!(!model.contains_key(&st.to), "a step overwrote a live file");
            model.insert(st.to.clone(), file);
        }
        let mut keys: Vec<Vec<Vec<u8>>> = model.keys().cloned().collect();
        keys.sort();
        let expected: Vec<Vec<Vec<u8>>> =
            cat.files.iter().map(|f| vec![f.clone()]).collect();
        assert_eq!(keys, expected);
        let mut survivors: Vec<Vec<u8>> = model.values().cloned().collect();
        survivors.sort();
        assert_eq!(survivors, cat.files);
    }
}
