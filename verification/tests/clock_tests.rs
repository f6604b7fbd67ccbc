use seqstamp::calendar::civil_timestamp_of;
use seqstamp::clock::anchored_start;
use seqstamp::config::Config;

#[test]
fn anchor_agrees_with_its_own_offset() {
    let cfg = Config { offset: 1, year: 2020, month: 1, day: 1, hour: 0, minute: 0, second: 0 };
    let (start, off) = anchored_start(&cfg);
    assert!((-93599..=93599).contains(&off));
    assert_eq!(start, civil_timestamp_of(2020, 1, 1, 0, 0, 0, off));
    // At UTC the anchor is the plain timestamp of the requested instant.
    if off == 0 {
        assert_eq!(start, 1577836800);
    }
}
