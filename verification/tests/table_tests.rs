use count_ovro_files::render::render;
use count_ovro_files::table::CountTable;
use count_ovro_files::table::Row;
use count_ovro_files::table::update_counter;

fn rendered(table: &CountTable, bands: &Vec<u8>) -> String {
    String::from_utf8(render(table, bands)).unwrap()
}

#[test]
fn empty_table_renders_header_only() {
    let mut table = CountTable::new();
    let bands = table.consolidate_keys();
    assert_eq!(rendered(&table, &bands), "  date  \n");
}

#[test]
fn mixed_names_count_only_matches() {
    // One malformed suffix: visited as a leaf, counted nowhere.
    let mut table = CountTable::new();
    update_counter(b"20230101_120000_41MHz.ms", &mut table);
    update_counter(b"20230101_130000_46MHt.ms", &mut table);
    update_counter(b"20230102_010000_41MHz.ms", &mut table);
    let bands = table.consolidate_keys();
    assert_eq!(bands, vec![41]);
    assert_eq!(
        rendered(&table, &bands),
        "  date    41MHz\n20230101      1\n20230102      1\n"
    );
}

#[test]
fn consolidation_backfills_missing_band_with_zero() {
    let mut table = CountTable::new();
    table.record(20230101, 41);
    table.record(20230101, 46);
    table.record(20230102, 41);
    let bands = table.consolidate_keys();
    assert_eq!(bands, vec![41, 46]);
    assert_eq!(
        rendered(&table, &bands),
        "  date    41MHz  46MHz\n20230101      1      1\n20230102      1      0\n"
    );
    // the second date's row now carries an explicit zero for band 46
    assert_eq!(table.rows[1].counts, vec![(41, 1), (46, 0)]);
}

#[test]
fn consolidation_is_idempotent() {
    let mut table = CountTable::new();
    table.record(20230101, 41);
    table.record(20230101, 46);
    table.record(20230102, 41);
    let bands1 = table.consolidate_keys();
    let once = rendered(&table, &bands1);
    let bands2 = table.consolidate_keys();
    let twice = rendered(&table, &bands2);
    assert_eq!(bands1, bands2);
    assert_eq!(once, twice);
}

#[test]
fn recording_order_does_not_matter() {
    let mut forward = CountTable::new();
    forward.record(20230101, 41);
    forward.record(20230102, 46);
    forward.record(20230101, 41);
    forward.record(20230101, 46);

    let mut backward = CountTable::new();
    backward.record(20230101, 46);
    backward.record(20230101, 41);
    backward.record(20230102, 46);
    backward.record(20230101, 41);

    let fb = forward.consolidate_keys();
    let bb = backward.consolidate_keys();
    assert_eq!(rendered(&forward, &fb), rendered(&backward, &bb));
}

#[test]
fn repeated_matches_accumulate() {
    let mut table = CountTable::new();
    for _ in 0..12 {
        table.record(20230101, 41);
    }
    let bands = table.consolidate_keys();
    assert_eq!(rendered(&table, &bands), "  date    41MHz\n20230101     12\n");
}

#[test]
fn single_digit_band_keeps_leading_zero() {
    let mut table = CountTable::new();
    update_counter(b"00230101_120000_05MHz.ms", &mut table);
    let bands = table.consolidate_keys();
    assert_eq!(
        rendered(&table, &bands),
        "  date    05MHz\n00230101      1\n"
    );
}

#[test]
fn rows_and_bands_come_out_sorted() {
    let mut table = CountTable::new();
    table.record(20230103, 78);
    table.record(20230101, 46);
    table.record(20230102, 41);
    let bands = table.consolidate_keys();
    assert_eq!(bands, vec![41, 46, 78]);
    let dates: Vec<u32> = table.rows.iter().map(|r| r.date).collect();
    assert_eq!(dates, vec![20230101, 20230102, 20230103]);
}

#[test]
fn wide_counts_overflow_their_column() {
    // a count of more than six digits simply widens its field
    let table = CountTable {
        rows: vec![Row { date: 20230101, counts: vec![(41, 1234567)] }],
    };
    let bands = vec![41];
    assert_eq!(
        rendered(&table, &bands),
        "  date    41MHz\n20230101 1234567\n"
    );
}
