use file_scrambler::naming::ExtensionPolicy;
use file_scrambler::pass::{name_allowed, plan_run};
use file_scrambler::timestamp::{TimestampPolicy, WindowDirection};
use file_scrambler::tree::{DirTree, Subdir};

fn allow_list() -> Vec<Vec<u8>> {
    [b"takeoff" as &[u8], b"land", b"right", b"left", b"forward", b"backward"]
        .iter()
        .map(|n| n.to_vec())
        .collect()
}

fn leaf(files: &[&[u8]]) -> DirTree {
    DirTree { files: files.iter().map(|f| f.to_vec()).collect(), subdirs: Vec::new() }
}

fn policy() -> TimestampPolicy {
    TimestampPolicy { reference: 1_695_340_800, window: 864_000, direction: WindowDirection::After }
}

#[test]
fn allow_list_membership() {
    let allow = allow_list();
    assert!(name_allowed(&allow, &b"takeoff".to_vec()));
    assert!(name_allowed(&allow, &b"backward".to_vec()));
    assert!(!name_allowed(&allow, &b"sideways".to_vec()));
    assert!(!name_allowed(&allow, &b"take".to_vec()));
    assert!(!name_allowed(&allow, &b"takeoff2".to_vec()));
    assert!(!name_allowed(&allow, &b"".to_vec()));
}

#[test]
fn only_category_directories_are_planned() {
    let root = DirTree {
        files: vec![b"stray.txt".to_vec()],
        subdirs: vec![
            Subdir { name: b"takeoff".to_vec(), tree: leaf(&[b"a.csv", b"b.csv"]) },
            Subdir { name: b"notes".to_vec(), tree: leaf(&[b"c.csv"]) },
            Subdir { name: b"land".to_vec(), tree: leaf(&[b"d.csv"]) },
        ],
    };
    let plans = plan_run(&root, &allow_list(), &ExtensionPolicy::Fixed(b".csv".to_vec()), &policy());
    assert_eq!(plans.len(), 2);
    assert_eq!(plans[0].name, b"takeoff".to_vec());
    assert_eq!(plans[1].name, b"land".to_vec());
    assert_eq!(plans[0].renames.len(), 2);
    assert_eq!(plans[1].renames.len(), 1);
    assert_eq!(plans[1].renames[0].to, b"001.csv".to_vec());
}

#[test]
fn run_over_plain_root_plans_nothing() {
    let root = leaf(&[b"only.txt"]);
    let plans = plan_run(&root, &allow_list(), &ExtensionPolicy::Preserve, &policy());
    assert!(plans.is_empty());
}
