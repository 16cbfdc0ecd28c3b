use count_ovro_files::render::render;
use count_ovro_files::table::CountTable;
use count_ovro_files::walk::process_listing;
use count_ovro_files::walk::Entry;

fn entry(name: &[u8], is_dir: bool) -> Entry {
    Entry { name: name.to_vec(), is_dir }
}

#[test]
fn leaf_at_depth_limit_is_still_counted() {
    let mut table = CountTable::new();
    let entries = vec![
        entry(b"20230101_120000_41MHz.ms", true),
        entry(b"deeper", true),
        entry(b"notes.txt", false),
    ];
    // depth equals the limit: the leaf is still detected and counted,
    // nothing is descended into
    let descend = process_listing(&entries, 5, 5, &mut table);
    assert_eq!(descend, Vec::<usize>::new());
    let bands = table.consolidate_keys();
    assert_eq!(
        String::from_utf8(render(&table, &bands)).unwrap(),
        "  date    41MHz\n20230101      1\n"
    );
}

#[test]
fn leaf_is_never_descended_into() {
    let mut table = CountTable::new();
    let entries = vec![
        entry(b"20230101_120000_41MHz.ms", true),
        entry(b"plain_dir", true),
        entry(b"another_41MHz.ms", true),
    ];
    // plenty of depth budget left: only the non-leaf directory is descended
    let descend = process_listing(&entries, 0, 5, &mut table);
    assert_eq!(descend, vec![1]);
}

#[test]
fn files_are_ignored_and_directories_descended_in_order() {
    let mut table = CountTable::new();
    let entries = vec![
        entry(b"a.txt", false),
        entry(b"sub1", true),
        entry(b"b.dat", false),
        entry(b"sub2", true),
    ];
    let descend = process_listing(&entries, 1, 5, &mut table);
    assert_eq!(descend, vec![1, 3]);
    // nothing was counted
    let bands = table.consolidate_keys();
    assert_eq!(
        String::from_utf8(render(&table, &bands)).unwrap(),
        "  date  \n"
    );
}

#[test]
fn malformed_leaf_is_visited_but_not_counted() {
    let mut table = CountTable::new();
    let entries = vec![
        entry(b"20230101_1300_46MHz.ms", true),
        entry(b"oddly_named_MHz.ms", true),
    ];
    let descend = process_listing(&entries, 0, 5, &mut table);
    // both are leaf containers: neither is descended into
    assert_eq!(descend, Vec::<usize>::new());
    // neither fits the counting pattern: nothing is counted
    let bands = table.consolidate_keys();
    assert_eq!(
        String::from_utf8(render(&table, &bands)).unwrap(),
        "  date  \n"
    );
}

#[test]
fn max_depth_zero_still_tests_the_first_level() {
    // the walk looks at least zero directories down: children of the
    // root are tested as leaves even when no descent is allowed
    let mut table = CountTable::new();
    let entries = vec![
        entry(b"20230101_120000_41MHz.ms", true),
        entry(b"sub", true),
    ];
    let descend = process_listing(&entries, 0, 0, &mut table);
    assert_eq!(descend, Vec::<usize>::new());
    let bands = table.consolidate_keys();
    assert_eq!(bands, vec![41]);
}

#[test]
fn depth_boundary_cuts_descent_one_level_deeper() {
    let mut table = CountTable::new();
    let below = vec![entry(b"sub", true)];
    // one level short of the limit: still descended
    let descend = process_listing(&below, 4, 5, &mut table);
    assert_eq!(descend, vec![0]);
    // at the limit: never descended
    let at = vec![entry(b"sub", true)];
    let descend = process_listing(&at, 5, 5, &mut table);
    assert_eq!(descend, Vec::<usize>::new());
}
