use snp_sampler::decode::{decode, InputFormat};
use snp_sampler::encode::format_snp_out;
use snp_sampler::quota::Proportion;
use snp_sampler::record::Snp;
use snp_sampler::thin::{thin, thin_seeded};

fn site(scaffold: &str, pos: i64) -> Snp {
    Snp {
        scaffold: scaffold.to_string(),
        pos,
        name: String::new(),
        a_ref: 0,
        a_alt: 0,
        ps: Vec::new(),
    }
}

fn keys(records: &[Snp]) -> Vec<(String, i64)> {
    records.iter().map(|r| (r.scaffold.clone(), r.pos)).collect()
}

fn output(records: &[Snp], format: &str) -> String {
    records.iter().map(|r| format_snp_out(r, format)).collect()
}

#[test]
fn sample_scenario_from_simple_input() {
    let mut survivors = Vec::new();
    for seed in 0..50 {
        let input = vec!["chr1\t100".to_string(), "chr1\t150".to_string(), "chr2\t100".to_string()];
        let pool = decode(input, InputFormat::Simple).unwrap();
        let out = thin_seeded(pool, 100, Proportion::whole(), seed);
        assert_eq!(out.records.len(), 2);
        assert_eq!(out.todo, 4);
        assert!(out.shortfall);
        let text = output(&out.records, "simple");
        assert!(text == "chr1:100\nchr2:100\n" || text == "chr1:150\nchr2:100\n");
        survivors.push(out.records[0].pos);
    }
    assert!(survivors.contains(&100));
    assert!(survivors.contains(&150));
}

#[test]
fn sample_scenario_without_a_seed() {
    let input = vec!["chr1\t100".to_string(), "chr1\t150".to_string(), "chr2\t100".to_string()];
    let pool = decode(input, InputFormat::Simple).unwrap();
    let out = thin(pool, 100, Proportion::from_decimal("1.0").unwrap());
    let text = output(&out.records, "simple");
    assert!(text == "chr1:100\nchr2:100\n" || text == "chr1:150\nchr2:100\n");
}

#[test]
fn shortfall_scenario() {
    for seed in 0..20 {
        let pool = vec![site("chr1", 10), site("chr1", 20), site("chr1", 30)];
        let out = thin_seeded(pool, 2000, Proportion::whole(), seed);
        assert_eq!(out.todo, 4);
        assert_eq!(out.records.len(), 1);
        assert!(out.shortfall);
        assert_eq!(output(&out.records, "simple").lines().count(), 1);
    }
}

#[test]
fn quota_reached_is_no_shortfall() {
    let pool: Vec<Snp> = (0..100).map(|i| site("chr1", i * 5000)).collect();
    let out = thin(pool, 2000, Proportion::new(1, 2).unwrap());
    assert_eq!(out.todo, 51);
    assert_eq!(out.records.len(), 52);
    assert!(!out.shortfall);
}

#[test]
fn thinning_an_empty_pool() {
    let out = thin(Vec::new(), 2000, Proportion::whole());
    assert!(out.records.is_empty());
    assert_eq!(out.todo, 1);
    assert!(out.shortfall);
}

#[test]
fn sparse_pool_with_the_whole_quota_keeps_every_record() {
    let pool: Vec<Snp> = (0..300).map(|i| site(&format!("c{}", i % 3), (300 - i) * 1000)).collect();
    let mut expected = keys(&pool);
    expected.sort();
    let out = thin(pool, 2000, Proportion::whole());
    assert_eq!(keys(&out.records), expected);
    assert_eq!(out.todo, 301);
    assert!(out.shortfall);
}

#[test]
fn output_is_in_order_whatever_the_shuffle() {
    for seed in 0..10 {
        let pool: Vec<Snp> = (0..500).map(|i| site(&format!("c{}", i % 5), (i * 7919) % 100_000)).collect();
        let out = thin_seeded(pool, 1500, Proportion::whole(), seed);
        let got = keys(&out.records);
        let mut sorted = got.clone();
        sorted.sort();
        assert_eq!(got, sorted);
        for pair in got.windows(2) {
            assert!(pair[0].0 != pair[1].0 || pair[1].1 - pair[0].1 >= 1500);
        }
    }
}

#[test]
fn beagle_input_to_beagle_output() {
    let input = vec![
        "r_1_chr2_9000\t0\t1\t0.1\t0.2\t0.7".to_string(),
        "r_1_chr1_5000\t2\t3\t0.3\t0.3\t0.4".to_string(),
        "r_1_chr1_100\t1\t0\t0.5\t0.5\t0.0".to_string(),
    ];
    let pool = decode(input, InputFormat::Beagle).unwrap();
    let out = thin(pool, 2000, Proportion::whole());
    assert_eq!(
        output(&out.records, "beagle"),
        "r_1_chr1_100\t1\t0\t0.5\t0.5\t0.0\nr_1_chr1_5000\t2\t3\t0.3\t0.3\t0.4\nr_1_chr2_9000\t0\t1\t0.1\t0.2\t0.7\n"
    );
}
