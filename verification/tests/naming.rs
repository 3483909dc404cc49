use file_scrambler::naming::{extension_of, seq_name, target_name, ExtensionPolicy};

#[test]
fn seq_name_pads_to_three_digits() {
    assert_eq!(seq_name(1), b"001".to_vec());
    assert_eq!(seq_name(2), b"002".to_vec());
    assert_eq!(seq_name(12), b"012".to_vec());
    assert_eq!(seq_name(123), b"123".to_vec());
    assert_eq!(seq_name(999), b"999".to_vec());
}

#[test]
fn seq_name_grows_past_three_digits() {
    assert_eq!(seq_name(1000), b"1000".to_vec());
    assert_eq!(seq_name(65536), b"65536".to_vec());
}

#[test]
fn seq_name_of_zero() {
    assert_eq!(seq_name(0), b"000".to_vec());
}

#[test]
fn extension_is_suffix_from_last_dot() {
    assert_eq!(extension_of(&b"x.csv".to_vec()), b".csv".to_vec());
    assert_eq!(extension_of(&b"archive.tar.gz".to_vec()), b".gz".to_vec());
    assert_eq!(extension_of(&b".hidden".to_vec()), b".hidden".to_vec());
    assert_eq!(extension_of(&b"name.".to_vec()), b".".to_vec());
}

#[test]
fn extension_of_dotless_name_is_empty() {
    assert_eq!(extension_of(&b"noext".to_vec()), b"".to_vec());
    assert_eq!(extension_of(&b"".to_vec()), b"".to_vec());
}

#[test]
fn target_name_with_fixed_extension() {
    let p = ExtensionPolicy::Fixed(b".csv".to_vec());
    assert_eq!(target_name(1, &b"whatever.txt".to_vec(), &p), b"001.csv".to_vec());
    assert_eq!(target_name(42, &b"x".to_vec(), &p), b"042.csv".to_vec());
}

#[test]
fn target_name_preserving_extension() {
    let p = ExtensionPolicy::Preserve;
    assert_eq!(target_name(3, &b"photo.jpeg".to_vec(), &p), b"003.jpeg".to_vec());
    assert_eq!(target_name(7, &b"plain".to_vec(), &p), b"007".to_vec());
}
