use snp_sampler::encode::{format_snp_out, is_known_format, push_joined};
use snp_sampler::record::Snp;

fn record() -> Snp {
    Snp {
        scaffold: "chr3".to_string(),
        pos: 4500,
        name: "run_7_chr3_4500".to_string(),
        a_ref: 0,
        a_alt: 2,
        ps: vec!["0.33".to_string(), "0.33".to_string(), "0.34".to_string()],
    }
}

#[test]
fn simple_row_is_scaffold_colon_position() {
    assert_eq!(format_snp_out(&record(), "simple"), "chr3:4500\n");
    let mut negative = record();
    negative.pos = -12;
    negative.scaffold = String::new();
    assert_eq!(format_snp_out(&negative, "simple"), ":-12\n");
}

#[test]
fn beagle_row_is_tab_separated() {
    assert_eq!(format_snp_out(&record(), "beagle"), "run_7_chr3_4500\t0\t2\t0.33\t0.33\t0.34\n");
}

#[test]
fn beagle_row_without_samples_ends_with_a_tab() {
    let mut bare = record();
    bare.ps = Vec::new();
    bare.a_ref = 255;
    bare.a_alt = 10;
    assert_eq!(format_snp_out(&bare, "beagle"), "run_7_chr3_4500\t255\t10\t\n");
}

#[test]
fn beagle_row_of_a_record_read_from_a_simple_line() {
    let snp = Snp::from_simple_line("chr1\t100").unwrap();
    assert_eq!(format_snp_out(&snp, "beagle"), "\t0\t0\t\n");
}

#[test]
fn a_beagle_line_is_written_as_it_was_read() {
    let line = "run_7_chr3_4500\t1\t3\t0.1\t\t0.9";
    let snp = Snp::from_beagle_line(line).unwrap();
    assert_eq!(format_snp_out(&snp, "beagle"), format!("{}\n", line));
    assert_eq!(format_snp_out(&snp, "simple"), "chr3:4500\n");
}

#[test]
fn format_names() {
    assert!(is_known_format("simple"));
    assert!(is_known_format("beagle"));
    assert!(!is_known_format("Simple"));
    assert!(!is_known_format(""));
    assert!(!is_known_format("simple "));
    assert!(!is_known_format("vcf"));
}

#[test]
fn parts_are_joined_with_the_separator_between() {
    let mut out = String::from(">");
    push_joined(&mut out, &vec![], ',');
    assert_eq!(out, ">");
    push_joined(&mut out, &vec!["a".to_string()], ',');
    assert_eq!(out, ">a");
    push_joined(&mut out, &vec!["b".to_string(), "".to_string(), "c".to_string()], ',');
    assert_eq!(out, ">ab,,c");
}
