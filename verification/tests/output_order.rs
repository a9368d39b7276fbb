use snp_sampler::output_order::{collate, not_after, sort_for_output, Side};
use snp_sampler::record::Snp;

fn named(scaffold: &str, pos: i64, name: &str) -> Snp {
    Snp {
        scaffold: scaffold.to_string(),
        pos,
        name: name.to_string(),
        a_ref: 0,
        a_alt: 0,
        ps: Vec::new(),
    }
}

fn site(scaffold: &str, pos: i64) -> Snp {
    named(scaffold, pos, "")
}

fn rows(records: &[Snp]) -> Vec<(String, i64, String)> {
    records.iter().map(|r| (r.scaffold.clone(), r.pos, r.name.clone())).collect()
}

fn scrambled(n: i64) -> Vec<Snp> {
    let mut state: i64 = 99;
    let mut pool = Vec::new();
    for i in 0..n {
        state = (state * 1103515245 + 12345) % 2147483648;
        let scaffold = format!("contig{}", state % 13);
        state = (state * 1103515245 + 12345) % 2147483648;
        pool.push(named(&scaffold, state % 50 - 25, &format!("n{}", i)));
    }
    pool
}

#[test]
fn texts_are_compared_byte_by_byte() {
    assert_eq!(collate(b"chr1", b"chr2"), Side::Before);
    assert_eq!(collate(b"chr2", b"chr1"), Side::After);
    assert_eq!(collate(b"chr1", b"chr1"), Side::Same);
    assert_eq!(collate(b"chr", b"chr1"), Side::Before);
    assert_eq!(collate(b"chr1", b"chr"), Side::After);
    assert_eq!(collate(b"chr10", b"chr2"), Side::Before);
    assert_eq!(collate(b"", b""), Side::Same);
    assert_eq!(collate(b"", b"a"), Side::Before);
    assert_eq!(collate(b"Z", b"a"), Side::Before);
    assert_eq!(collate("z".as_bytes(), "é".as_bytes()), Side::Before);
}

#[test]
fn records_are_compared_by_scaffold_then_position() {
    assert!(not_after(&site("chr1", 100), &site("chr1", 100)));
    assert!(not_after(&site("chr1", 100), &site("chr1", 101)));
    assert!(!not_after(&site("chr1", 101), &site("chr1", 100)));
    assert!(not_after(&site("chr1", 900), &site("chr2", 1)));
    assert!(!not_after(&site("chr2", 1), &site("chr1", 900)));
    assert!(not_after(&site("chr1", -5), &site("chr1", 0)));
}

#[test]
fn output_is_sorted_by_scaffold_then_position() {
    let sorted = sort_for_output(vec![
        site("chr2", 100),
        site("chr10", 7),
        site("chr1", 150),
        site("chr1", -3),
        site("chr1", 20),
        site("chr", 1000),
    ]);
    assert_eq!(
        rows(&sorted),
        vec![
            ("chr".to_string(), 1000, String::new()),
            ("chr1".to_string(), -3, String::new()),
            ("chr1".to_string(), 20, String::new()),
            ("chr1".to_string(), 150, String::new()),
            ("chr10".to_string(), 7, String::new()),
            ("chr2".to_string(), 100, String::new()),
        ]
    );
}

#[test]
fn records_with_the_same_key_keep_their_order() {
    let sorted = sort_for_output(vec![
        named("chr1", 5, "first"),
        named("chr0", 9, "x"),
        named("chr1", 5, "second"),
        named("chr1", 4, "y"),
        named("chr1", 5, "third"),
    ]);
    assert_eq!(
        rows(&sorted),
        vec![
            ("chr0".to_string(), 9, "x".to_string()),
            ("chr1".to_string(), 4, "y".to_string()),
            ("chr1".to_string(), 5, "first".to_string()),
            ("chr1".to_string(), 5, "second".to_string()),
            ("chr1".to_string(), 5, "third".to_string()),
        ]
    );
}

#[test]
fn sorting_short_inputs() {
    assert!(sort_for_output(Vec::new()).is_empty());
    assert_eq!(rows(&sort_for_output(vec![site("a", 1)])), vec![("a".to_string(), 1, String::new())]);
}

#[test]
fn sorting_agrees_with_a_stable_sort_by_key() {
    for n in [2, 3, 7, 64, 1000] {
        let mut expected = rows(&scrambled(n));
        expected.sort_by_key(|r| (r.0.clone(), r.1));
        assert_eq!(rows(&sort_for_output(scrambled(n))), expected);
    }
}

#[test]
fn sorting_twice_changes_nothing() {
    let once = sort_for_output(scrambled(500));
    let expected = rows(&once);
    let twice = sort_for_output(once);
    assert_eq!(rows(&twice), expected);
}
