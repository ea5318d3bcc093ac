use workshop::report::parse_mem;
use workshop::report::summarize;
use workshop::report::u64_to_dec;
use workshop::report::UtilisationData;

#[test]
fn parse_mem_reads_mebibytes() {
    assert_eq!(parse_mem("123Mi"), 123);
    assert_eq!(parse_mem("123"), 123);
    assert_eq!(parse_mem("+7Mi"), 7);
    assert_eq!(parse_mem("0Mi"), 0);
    assert_eq!(parse_mem("123MiMi"), 123);
}

#[test]
fn parse_mem_rejections_read_as_zero() {
    assert_eq!(parse_mem(""), 0);
    assert_eq!(parse_mem("Mi"), 0);
    assert_eq!(parse_mem("abcMi"), 0);
    assert_eq!(parse_mem("12.5Mi"), 0);
    assert_eq!(parse_mem("-5Mi"), 0);
    assert_eq!(parse_mem("+Mi"), 0);
    assert_eq!(parse_mem("99999999999999999999Mi"), 0);
}

#[test]
fn u64_to_dec_renders_decimal() {
    assert_eq!(u64_to_dec(0), "0");
    assert_eq!(u64_to_dec(7), "7");
    assert_eq!(u64_to_dec(10230), "10230");
    assert_eq!(u64_to_dec(u64::MAX), "18446744073709551615");
}

#[test]
fn scanner_sums_shards_of_a_section() {
    let input = "\
# alpha
n1 alpha-prometheus p1 a b c d e f 100Mi g 200Mi h 300Mi i
n2 alpha-prometheus p2 a b c d e f 10Mi g 20Mi h 30Mi i
";
    let mut data = UtilisationData::from(input);
    let row = data.next().unwrap();
    assert_eq!(row.name, "alpha");
    assert_eq!(row.tag, "new");
    assert_eq!(row.shard_count, 2);
    assert_eq!(row.mem_requests_total, 110);
    assert_eq!(row.mem_limits_total, 220);
    assert_eq!(row.mem_util_total, 330);
    assert!(data.next().is_none());
}

#[test]
fn scanner_emits_monitoring_rows_at_once() {
    let input = "\
# beta
n1 monitoring p1 a b c d e f 10Mi g 20Mi h 30Mi i
";
    let mut data = UtilisationData::from(input);
    let row = data.next().unwrap();
    assert_eq!(row.name, "beta");
    assert_eq!(row.tag, "old");
    assert_eq!(row.shard_count, 1);
    assert_eq!(row.mem_requests_total, 10);
    assert_eq!(row.mem_limits_total, 20);
    assert_eq!(row.mem_util_total, 30);
    assert!(data.next().is_none());
}

#[test]
fn scanner_skips_blank_and_short_lines() {
    let input = "\
# gamma

too short
n1 gamma-prometheus p1 a b c d e f 5Mi g 6Mi h 7Mi i
";
    let mut data = UtilisationData::from(input);
    let row = data.next().unwrap();
    assert_eq!(row.name, "gamma");
    assert_eq!(row.shard_count, 1);
    assert_eq!(row.mem_requests_total, 5);
    assert!(data.next().is_none());
}

#[test]
fn summarize_aligns_the_header_alone() {
    assert_eq!(
        summarize(""),
        "INSTALLATION  PROM  SHARDS  REQUESTS  LIMITS  UTIL\n"
    );
}

#[test]
fn summarize_aligns_one_section() {
    let input = "\
# alpha
n1 alpha-prometheus p1 a b c d e f 100Mi g 200Mi h 300Mi i
";
    let expected = "\
INSTALLATION  PROM  SHARDS  REQUESTS  LIMITS  UTIL
alpha         new   1       100Mi     200Mi   300Mi
";
    assert_eq!(summarize(input), expected);
}
