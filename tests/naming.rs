use shred_tools::extractor::{collect_entries, decode_base64, decode_payload, hex_to_ascii};
use shred_tools::sorting::{
    parse_u64, sort_files, sort_uuid_first_part, sort_uuid_latest_part, SortAlgorithm,
};
use std::cmp::Ordering;

fn paths(v: &[&str]) -> Vec<String> {
    v.iter().map(|s| s.to_string()).collect()
}

#[test]
fn parse_reads_plain_and_signed_digits() {
    assert_eq!(parse_u64(&b"123".to_vec()), Some(123));
    assert_eq!(parse_u64(&b"+7".to_vec()), Some(7));
    assert_eq!(parse_u64(&b"18446744073709551615".to_vec()), Some(u64::MAX));
    assert_eq!(parse_u64(&b"18446744073709551616".to_vec()), None);
    assert_eq!(parse_u64(&b"12a".to_vec()), None);
    assert_eq!(parse_u64(&b"".to_vec()), None);
    assert_eq!(parse_u64(&b"+".to_vec()), None);
    assert_eq!(parse_u64(&b"-1".to_vec()), None);
}

#[test]
fn first_part_compares_numeric_parts() {
    let a = "dir/1-2-x.jpg".to_string();
    let b = "dir/1-10-a.jpg".to_string();
    assert_eq!(sort_uuid_first_part(&a, &b), Ordering::Less);
    assert_eq!(sort_uuid_first_part(&b, &a), Ordering::Greater);
    let c = "dir/abc.jpg".to_string();
    let d = "dir/5.jpg".to_string();
    assert_eq!(sort_uuid_first_part(&c, &d), Ordering::Less);
    assert_eq!(sort_uuid_first_part(&a, &a), Ordering::Equal);
}

#[test]
fn first_part_falls_back_to_stem_bytes() {
    let a = "x/7-b.png".to_string();
    let b = "x/7-a.png".to_string();
    assert_eq!(sort_uuid_first_part(&a, &b), Ordering::Greater);
}

#[test]
fn latest_part_compares_last_number() {
    let a = "s/aa-9.jpg".to_string();
    let b = "s/zz-10.jpg".to_string();
    assert_eq!(sort_uuid_latest_part(&a, &b), Ordering::Less);
    let c = "s/b-3.jpg".to_string();
    let d = "s/a-3.jpg".to_string();
    assert_eq!(sort_uuid_latest_part(&c, &d), Ordering::Greater);
}

#[test]
fn sort_files_by_each_algorithm() {
    let files = paths(&["d/3-1.jpg", "d/1-20.jpg", "d/2-5.jpg"]);
    assert_eq!(
        sort_files(files.clone(), SortAlgorithm::Lexicographical),
        paths(&["d/1-20.jpg", "d/2-5.jpg", "d/3-1.jpg"])
    );
    assert_eq!(
        sort_files(files.clone(), SortAlgorithm::ReverseLexicographical),
        paths(&["d/3-1.jpg", "d/2-5.jpg", "d/1-20.jpg"])
    );
    assert_eq!(
        sort_files(files.clone(), SortAlgorithm::ByUuidFirstPart),
        paths(&["d/1-20.jpg", "d/2-5.jpg", "d/3-1.jpg"])
    );
    assert_eq!(
        sort_files(files, SortAlgorithm::ByUuidLatestPart),
        paths(&["d/3-1.jpg", "d/2-5.jpg", "d/1-20.jpg"])
    );
}

#[test]
fn sort_files_numeric_not_textual() {
    let files = paths(&["d/10.jpg", "d/9.jpg", "d/100.jpg"]);
    assert_eq!(
        sort_files(files, SortAlgorithm::ByUuidFirstPart),
        paths(&["d/9.jpg", "d/10.jpg", "d/100.jpg"])
    );
}

#[test]
fn hex_to_ascii_reads_pairs() {
    assert_eq!(hex_to_ascii(b"4142"), Some(vec![0x41, 0x42]));
    assert_eq!(hex_to_ascii(b"fF00"), Some(vec![0xff, 0x00]));
    assert_eq!(hex_to_ascii(b""), Some(vec![]));
    assert_eq!(hex_to_ascii(b"414"), None);
    assert_eq!(hex_to_ascii(b"zz"), None);
}

#[test]
fn base64_decodes_to_text() {
    assert_eq!(decode_base64(b"aGVsbG8="), Some("hello".to_string()));
    assert_eq!(decode_base64(b"!!"), None);
    assert_eq!(decode_base64(b"/w=="), None);
}

fn hex_of(s: &str) -> String {
    s.bytes().map(|b| format!("{:02X}", b)).collect()
}

#[test]
fn payload_yields_key_and_value() {
    let inner = "eyJrMSI6ICJ3b3JkIn0=";
    let raw = format!("0x4153434949000000{}", hex_of(inner));
    assert_eq!(
        decode_payload(&raw),
        Some(("k1".to_string(), "word".to_string()))
    );
}

#[test]
fn payload_needs_marker_and_two_quotes() {
    assert_eq!(decode_payload("0x4153434949000001"), None);
    assert_eq!(decode_payload("hello"), None);
    let raw = format!("0x4153434949000000{}", hex_of("Im9ubHki"));
    assert_eq!(decode_payload(&raw), None);
}

#[test]
fn entries_sorted_by_key_last_value_wins() {
    let pairs = vec![
        ("b".to_string(), "2".to_string()),
        ("a".to_string(), "1".to_string()),
        ("c".to_string(), "3".to_string()),
        ("b".to_string(), "4".to_string()),
    ];
    let out = collect_entries(pairs);
    assert_eq!(
        out,
        vec![
            ("a".to_string(), "1".to_string()),
            ("b".to_string(), "4".to_string()),
            ("c".to_string(), "3".to_string()),
        ]
    );
}
