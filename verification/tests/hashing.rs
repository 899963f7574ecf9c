use addon_parse::fingerprint::{
    combine_hashes, find_fingerprint, fingerprint_files, hash_file, refresh_fingerprints,
    remove_blanks,
};
use addon_parse::murmur2::calculate_hash;
use addon_parse::text::push_decimal;
use addon_parse::{update_addon_fingerprint, Fingerprint, FingerprintCollection};

fn entry(title: &str, hash: Option<u32>) -> Fingerprint {
    Fingerprint { title: title.to_string(), hash }
}

fn names(list: &[&str]) -> Vec<String> {
    list.iter().map(|s| s.to_string()).collect()
}

const TOC: &[u8] = b"## Title: Foo\r\nmain.lua\n";
const LUA: &[u8] = b"local x = 1\n\tprint(x)\n";

#[test]
fn murmur2_of_every_tail_length() {
    assert_eq!(calculate_hash(b"", 1), 1540447798);
    assert_eq!(calculate_hash(b"a", 1), 626045324);
    assert_eq!(calculate_hash(b"ab", 1), 1692487918);
    assert_eq!(calculate_hash(b"abc", 1), 1621425345);
    assert_eq!(calculate_hash(b"abcd", 1), 3376380438);
    assert_eq!(calculate_hash(b"abcde", 1), 3469237630);
    assert_eq!(calculate_hash(b"hello world", 1), 2213174766);
    assert_eq!(calculate_hash(&[0xff, 0xfe, 0xfd, 0xfc, 0xfb, 0xfa, 0xf9], 1), 2420652382);
}

#[test]
fn murmur2_with_other_seeds() {
    assert_eq!(calculate_hash(b"", 0), 0);
    assert_eq!(calculate_hash(b"abc", 0), 324500635);
    assert_eq!(calculate_hash(b"hello world", 0x9747b28c), 1221641059);
}

#[test]
fn blanks_are_left_out() {
    assert_eq!(remove_blanks(b" a\tb\r\nc\x0bd "), b"abc\x0bd".to_vec());
    assert_eq!(remove_blanks(b""), Vec::<u8>::new());
}

#[test]
fn hash_of_one_file() {
    assert_eq!(hash_file(TOC), 4134309662);
    assert_eq!(hash_file(LUA), 1447160503);
}

#[test]
fn decimal_digits() {
    let mut out = Vec::new();
    push_decimal(&mut out, 0);
    push_decimal(&mut out, 10);
    push_decimal(&mut out, u32::MAX);
    assert_eq!(out, b"0104294967295".to_vec());
}

#[test]
fn fingerprint_of_a_directory() {
    assert_eq!(fingerprint_files(&vec![TOC.to_vec(), LUA.to_vec()]), 2413415204);
    assert_eq!(fingerprint_files(&vec![TOC.to_vec()]), 4145490665);
    assert_eq!(fingerprint_files(&vec![]), 1540447798);
}

#[test]
fn fingerprint_ignores_the_order_of_files() {
    assert_eq!(
        fingerprint_files(&vec![LUA.to_vec(), TOC.to_vec()]),
        fingerprint_files(&vec![TOC.to_vec(), LUA.to_vec()])
    );
    assert_eq!(combine_hashes(vec![4134309662, 1447160503]), 2413415204);
    assert_eq!(combine_hashes(vec![1447160503, 4134309662]), 2413415204);
}

#[test]
fn fingerprint_ignores_blanks() {
    let tight = b"##Title:Foomain.lua".to_vec();
    assert_eq!(fingerprint_files(&vec![tight, LUA.to_vec()]), 2413415204);
}

#[test]
fn stored_fingerprints_are_found_by_title() {
    let list: FingerprintCollection =
        vec![entry("Foo", Some(1)), entry("Bar", Some(2)), entry("Bar", Some(3))];
    assert_eq!(find_fingerprint(&list, "Bar"), Some(1));
    assert_eq!(find_fingerprint(&list, "bar"), None);
    assert_eq!(find_fingerprint(&Vec::new(), "Bar"), None);
}

#[test]
fn refresh_keeps_stored_and_adds_computed() {
    let mut list = vec![entry("Gone", Some(9)), entry("Foo", Some(1)), entry("Bad", None)];
    let dirs = names(&["New", "Foo", "Bad", "Broken"]);
    refresh_fingerprints(&mut list, &dirs, &vec![Some(5), Some(6), Some(7), None]);
    assert_eq!(list, vec![entry("New", Some(5)), entry("Foo", Some(1))]);
}

#[test]
fn refresh_without_directories_empties_the_collection() {
    let mut list = vec![entry("Foo", Some(1))];
    refresh_fingerprints(&mut list, &vec![], &vec![]);
    assert_eq!(list, vec![]);
}

#[test]
fn update_changes_every_entry_of_the_addon() {
    let mut list = vec![entry("Foo", Some(1)), entry("Bar", Some(2)), entry("Foo", None)];
    update_addon_fingerprint(&mut list, "Foo", Some(8));
    assert_eq!(list, vec![entry("Foo", Some(8)), entry("Bar", Some(2)), entry("Foo", Some(8))]);
}

#[test]
fn update_adds_nothing() {
    let mut list = vec![entry("Foo", Some(1))];
    update_addon_fingerprint(&mut list, "Bar", Some(8));
    update_addon_fingerprint(&mut list, "Foo", None);
    assert_eq!(list, vec![entry("Foo", Some(1))]);
}

#[test]
fn refresh_reads_back_an_update() {
    let mut list = vec![entry("Foo", Some(1))];
    update_addon_fingerprint(&mut list, "Foo", Some(8));
    refresh_fingerprints(&mut list, &names(&["Foo"]), &vec![Some(1)]);
    assert_eq!(list, vec![entry("Foo", Some(8))]);
    assert_eq!(list[0].clone(), list[0]);
}
