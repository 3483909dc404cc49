use std::collections::HashMap;

use file_scrambler::naming::ExtensionPolicy;
use file_scrambler::renamer::{plan_renames, RenameStep};

fn names(list: &[&[u8]]) -> Vec<Vec<u8>> {
    list.iter().map(|n| n.to_vec()).collect()
}

/// Runs a step list against a model directory, checking that every step
/// finds its source present and its target name free.
fn simulate(model: &mut HashMap<Vec<Vec<u8>>, Vec<u8>>, steps: &[RenameStep]) {
    for st in steps {
        let file = model.remove(&st.from).expect("a step lost its pending source");
        assert!(!model.contains_key(&st.to), "a step overwrote a live file");
        model.insert(st.to.clone(), file);
    }
}

#[test]
fn renames_cover_every_source_once() {
    let input = names(&[b"a.csv", b"b.csv", b"c.csv", b"d.csv", b"e.csv"]);
    let plan = plan_renames(input.clone(), &ExtensionPolicy::Fixed(b".csv".to_vec()));
    assert_eq!(plan.renames.len(), 5);
    let mut sources: Vec<Vec<u8>> = plan.renames.iter().map(|op| op.from.clone()).collect();
    let mut expected = input.clone();
    sources.sort();
    expected.sort();
    assert_eq!(sources, expected);
}

#[test]
fn targets_are_exactly_the_padded_sequence() {
    let input = names(&[b"w", b"x", b"y", b"z"]);
    let plan = plan_renames(input, &ExtensionPolicy::Fixed(b".csv".to_vec()));
    let targets: Vec<Vec<u8>> = plan.renames.iter().map(|op| op.to.clone()).collect();
    let expected: Vec<Vec<u8>> =
        (1..=4u64).map(|k| format!("{:03}.csv", k).into_bytes()).collect();
    assert_eq!(targets, expected);
}

#[test]
fn targets_preserve_each_sources_extension() {
    let input = names(&[b"one.txt", b"two.txt", b"three.txt"]);
    let plan = plan_renames(input, &ExtensionPolicy::Preserve);
    for (k, op) in plan.renames.iter().enumerate() {
        let expected = format!("{:03}.txt", k + 1).into_bytes();
        assert_eq!(op.to, expected);
    }
}

#[test]
fn no_target_name_repeats() {
    let input = names(&[b"a", b"b.csv", b"c.md", b"d", b"e.csv", b"f.md"]);
    let plan = plan_renames(input, &ExtensionPolicy::Preserve);
    for i in 0..plan.renames.len() {
        for j in (i + 1)..plan.renames.len() {
            assert_ne!(plan.renames[i].to, plan.renames[j].to);
        }
    }
}

#[test]
fn steps_stage_through_the_temp_directory() {
    let input = names(&[b"a.csv", b"b.csv", b"c.csv"]);
    let plan = plan_renames(input, &ExtensionPolicy::Fixed(b".csv".to_vec()));
    assert_eq!(plan.temp_dir, b"temp".to_vec());
    assert_eq!(plan.steps.len(), 2 * plan.renames.len());
    for (k, op) in plan.renames.iter().enumerate() {
        assert_eq!(plan.steps[k].from, vec![op.from.clone()]);
        assert_eq!(plan.steps[k].to, vec![b"temp".to_vec(), op.to.clone()]);
        assert_eq!(plan.steps[3 + k].from, vec![b"temp".to_vec(), op.to.clone()]);
        assert_eq!(plan.steps[3 + k].to, vec![op.to.clone()]);
    }
}

#[test]
fn steps_never_lose_a_file_when_names_recur() {
    // Files already named 001.csv..004.csv: an in-place rename pass would
    // overwrite a pending source on any non-identity shuffle; the staged
    // steps never do, over many fresh shuffles.
    for _ in 0..40 {
        let input = names(&[b"001.csv", b"002.csv", b"003.csv", b"004.csv"]);
        let plan = plan_renames(input.clone(), &ExtensionPolicy::Fixed(b".csv".to_vec()));
        let mut model: HashMap<Vec<Vec<u8>>, Vec<u8>> = HashMap::new();
        for f in &input {
            model.insert(vec![f.clone()], f.clone());
        }
        simulate(&mut model, &plan.steps);
        let mut keys: Vec<Vec<Vec<u8>>> = model.keys().cloned().collect();
        keys.sort();
        let expected: Vec<Vec<Vec<u8>>> = input.iter().map(|f| vec![f.clone()]).collect();
        assert_eq!(keys, expected);
        let mut survivors: Vec<Vec<u8>> = model.values().cloned().collect();
        survivors.sort();
        assert_eq!(survivors, input);
    }
}

#[test]
fn assignment_varies_across_runs() {
    // The order is drawn fresh each pass: over many passes of six files the
    // file assigned the first sequence name must not always be the same.
    let input = names(&[b"a", b"b", b"c", b"d", b"e", b"f"]);
    let mut firsts: Vec<Vec<u8>> = Vec::new();
    for _ in 0..60 {
        let plan = plan_renames(input.clone(), &ExtensionPolicy::Preserve);
        firsts.push(plan.renames[0].from.clone());
    }
    firsts.sort();
    firsts.dedup();
    assert!(firsts.len() >= 2);
}

#[test]
fn empty_directory_plans_no_renames() {
    let plan = plan_renames(Vec::new(), &ExtensionPolicy::Preserve);
    assert!(plan.renames.is_empty());
    assert!(plan.steps.is_empty());
}
