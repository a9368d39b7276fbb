use snp_sampler::decode::{decode, decode_line, InputFormat, MalformedRecord};
use snp_sampler::record::Snp;

fn lines(texts: &[&str]) -> Vec<String> {
    texts.iter().map(|t| t.to_string()).collect()
}

#[test]
fn simple_line_gives_scaffold_and_position() {
    let snp = Snp::from_simple_line("chr1\t100").unwrap();
    assert_eq!(snp.scaffold, "chr1");
    assert_eq!(snp.pos, 100);
    assert_eq!(snp.name, "");
    assert_eq!(snp.a_ref, 0);
    assert_eq!(snp.a_alt, 0);
    assert!(snp.ps.is_empty());
}

#[test]
fn simple_line_with_more_columns_reads_the_first_two() {
    let snp = Snp::from_simple_line("scaffold_12\t-7\tmore\tcolumns").unwrap();
    assert_eq!(snp.scaffold, "scaffold_12");
    assert_eq!(snp.pos, -7);
    let empty = Snp::from_simple_line("\t5").unwrap();
    assert_eq!(empty.scaffold, "");
    assert_eq!(empty.pos, 5);
}

#[test]
fn simple_line_without_position() {
    assert_eq!(Snp::from_simple_line("chr1").unwrap_err(), MalformedRecord::MissingPosition);
    assert_eq!(Snp::from_simple_line("").unwrap_err(), MalformedRecord::MissingPosition);
    assert_eq!(Snp::from_simple_line("chr1 100").unwrap_err(), MalformedRecord::MissingPosition);
}

#[test]
fn simple_line_with_bad_position() {
    assert_eq!(Snp::from_simple_line("chr1\tabc").unwrap_err(), MalformedRecord::BadPosition);
    assert_eq!(Snp::from_simple_line("chr1\t").unwrap_err(), MalformedRecord::BadPosition);
    assert_eq!(Snp::from_simple_line("chr1\t1.5").unwrap_err(), MalformedRecord::BadPosition);
    assert_eq!(Snp::from_simple_line("chr1\t 100").unwrap_err(), MalformedRecord::BadPosition);
    assert_eq!(
        Snp::from_simple_line("chr1\t9223372036854775808").unwrap_err(),
        MalformedRecord::BadPosition
    );
}

#[test]
fn beagle_line_gives_all_fields() {
    let snp = Snp::from_beagle_line("run_7_chr3_4500_x\t0\t2\t0.33\t0.33\t0.34\t1.0").unwrap();
    assert_eq!(snp.scaffold, "chr3");
    assert_eq!(snp.pos, 4500);
    assert_eq!(snp.name, "run_7_chr3_4500_x");
    assert_eq!(snp.a_ref, 0);
    assert_eq!(snp.a_alt, 2);
    assert_eq!(snp.ps, vec!["0.33", "0.33", "0.34", "1.0"]);
}

#[test]
fn beagle_line_without_samples() {
    let snp = Snp::from_beagle_line("a_b_c_1\t1\t3").unwrap();
    assert_eq!(snp.scaffold, "c");
    assert_eq!(snp.pos, 1);
    assert_eq!(snp.a_ref, 1);
    assert_eq!(snp.a_alt, 3);
    assert!(snp.ps.is_empty());
    let trailing = Snp::from_beagle_line("a_b_c_1\t1\t3\t").unwrap();
    assert_eq!(trailing.ps, vec![""]);
}

#[test]
fn beagle_line_defects() {
    assert_eq!(Snp::from_beagle_line("").unwrap_err(), MalformedRecord::MissingScaffold);
    assert_eq!(Snp::from_beagle_line("a_b\t0\t1").unwrap_err(), MalformedRecord::MissingScaffold);
    assert_eq!(Snp::from_beagle_line("a_b_c\t0\t1").unwrap_err(), MalformedRecord::MissingPosition);
    assert_eq!(Snp::from_beagle_line("a_b_c_x\t0\t1").unwrap_err(), MalformedRecord::BadPosition);
    assert_eq!(Snp::from_beagle_line("a_b_c_\t0\t1").unwrap_err(), MalformedRecord::BadPosition);
    assert_eq!(Snp::from_beagle_line("a_b_c_5").unwrap_err(), MalformedRecord::MissingAllele);
    assert_eq!(Snp::from_beagle_line("a_b_c_5\tA\t1").unwrap_err(), MalformedRecord::BadAllele);
    assert_eq!(Snp::from_beagle_line("a_b_c_5\t256\t1").unwrap_err(), MalformedRecord::BadAllele);
    assert_eq!(Snp::from_beagle_line("a_b_c_5\t0").unwrap_err(), MalformedRecord::MissingAllele);
    assert_eq!(Snp::from_beagle_line("a_b_c_5\t0\t-1").unwrap_err(), MalformedRecord::BadAllele);
    assert_eq!(Snp::from_beagle_line("a_b_c_5\t0\t").unwrap_err(), MalformedRecord::BadAllele);
}

#[test]
fn the_first_defect_of_a_line_is_reported() {
    assert_eq!(Snp::from_beagle_line("a_b").unwrap_err(), MalformedRecord::MissingScaffold);
    assert_eq!(Snp::from_beagle_line("a_b_c_x").unwrap_err(), MalformedRecord::BadPosition);
    assert_eq!(Snp::from_beagle_line("a_b_c_5\tx").unwrap_err(), MalformedRecord::BadAllele);
    assert_eq!(Snp::from_beagle_line("a_b_c_5\tx\ty").unwrap_err(), MalformedRecord::BadAllele);
}

#[test]
fn a_line_is_read_in_the_given_format() {
    let line = "a_b_c_5\t7";
    let simple = decode_line(line, InputFormat::Simple).unwrap();
    assert_eq!(simple.scaffold, "a_b_c_5");
    assert_eq!(simple.pos, 7);
    assert_eq!(decode_line(line, InputFormat::Beagle).unwrap_err(), MalformedRecord::MissingAllele);
}

#[test]
fn simple_input_skips_blank_lines() {
    let records = decode(
        lines(&["", "chr1\t100", "", "", "chr1\t150", "chr2\t100", ""]),
        InputFormat::Simple,
    )
    .unwrap();
    let keys: Vec<(String, i64)> = records.iter().map(|r| (r.scaffold.clone(), r.pos)).collect();
    assert_eq!(
        keys,
        vec![("chr1".to_string(), 100), ("chr1".to_string(), 150), ("chr2".to_string(), 100)]
    );
}

#[test]
fn input_without_lines_has_no_records() {
    assert!(decode(Vec::new(), InputFormat::Simple).unwrap().is_empty());
    assert!(decode(Vec::new(), InputFormat::Beagle).unwrap().is_empty());
    assert!(decode(lines(&["", ""]), InputFormat::Simple).unwrap().is_empty());
}

#[test]
fn a_line_of_blanks_is_not_skipped() {
    let e = decode(lines(&["chr1\t1", " ", "chr1\t2"]), InputFormat::Simple).unwrap_err();
    assert_eq!(e.line, " ");
    assert_eq!(e.cause, MalformedRecord::MissingPosition);
}

#[test]
fn beagle_input_does_not_skip_blank_lines() {
    let e = decode(lines(&["a_b_c_1\t0\t1\t0.5", "", "a_b_c_2\t0\t1"]), InputFormat::Beagle)
        .unwrap_err();
    assert_eq!(e.line, "");
    assert_eq!(e.cause, MalformedRecord::MissingScaffold);
}

#[test]
fn one_bad_line_fails_the_input_and_the_first_is_reported() {
    let e = decode(
        lines(&["chr1\t1", "chr1\t2", "chr1\tx", "chr1", "chr1\t5"]),
        InputFormat::Simple,
    )
    .unwrap_err();
    assert_eq!(e.line, "chr1\tx");
    assert_eq!(e.cause, MalformedRecord::BadPosition);
}

#[test]
fn records_come_in_the_order_of_the_lines() {
    let input: Vec<String> = (0..2000).map(|i| format!("x_y_s{}_{}\t1\t2\tp{}", i % 7, i, i)).collect();
    let records = decode(input, InputFormat::Beagle).unwrap();
    assert_eq!(records.len(), 2000);
    for (i, r) in records.iter().enumerate() {
        assert_eq!(r.scaffold, format!("s{}", i % 7));
        assert_eq!(r.pos, i as i64);
        assert_eq!(r.name, format!("x_y_s{}_{}", i % 7, i));
        assert_eq!(r.ps, vec![format!("p{}", i)]);
    }
}
