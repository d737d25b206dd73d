//! Statistics table behaviour on concrete entries.

use brc_core::render::format_output;
use brc_core::table::{bytes_eq, City, StatsTable};

fn table_of(pairs: &[(&[u8], i32)]) -> StatsTable {
    let mut t = StatsTable::new();
    for (key, value) in pairs {
        t.add_observation(key, *value);
    }
    t
}

#[test]
fn city_new_counts_one_observation() {
    let c = City::new(b"Oslo".to_vec(), 42, 42);
    assert_eq!(c.name, b"Oslo".to_vec());
    assert_eq!(c.max, 42);
    assert_eq!(c.min, 42);
    assert_eq!(c.sum, 42);
    assert_eq!(c.count, 1);
}

#[test]
fn add_observation_aggregates_per_key() {
    let t = table_of(&[(b"A", 100), (b"A", 50), (b"B", 205)]);
    let out = format_output(t);
    assert_eq!(out, b"{A=5.0/7.5/10.0, B=20.5/20.5/20.5}".to_vec());
}

#[test]
fn merge_order_does_not_matter() {
    let left = || table_of(&[(b"A", 100), (b"B", 205)]);
    let right = || table_of(&[(b"A", 50), (b"C", -32)]);

    let mut ab = left();
    ab.merge_from(right());
    let mut ba = right();
    ba.merge_from(left());

    let out_ab = format_output(ab);
    let out_ba = format_output(ba);
    assert_eq!(out_ab, out_ba);
    assert_eq!(out_ab, b"{A=5.0/7.5/10.0, B=20.5/20.5/20.5, C=-3.2/-3.2/-3.2}".to_vec());
}

#[test]
fn merge_grouping_does_not_matter() {
    let a = || table_of(&[(b"K", 10)]);
    let b = || table_of(&[(b"K", 20), (b"L", 5)]);
    let c = || table_of(&[(b"L", 7), (b"M", 0)]);

    let mut ab_c = a();
    ab_c.merge_from(b());
    ab_c.merge_from(c());

    let mut bc = b();
    bc.merge_from(c());
    let mut a_bc = a();
    a_bc.merge_from(bc);

    assert_eq!(format_output(ab_c), format_output(a_bc));
}

#[test]
fn find_entry_locates_keys() {
    let t = table_of(&[(b"A", 1), (b"B", 2)]);
    assert!(t.find_entry(b"A").is_some());
    assert!(t.find_entry(b"B").is_some());
    assert!(t.find_entry(b"C").is_none());
}

#[test]
fn bytes_eq_compares_contents() {
    assert!(bytes_eq(b"abc", b"abc"));
    assert!(!bytes_eq(b"abc", b"abd"));
    assert!(!bytes_eq(b"abc", b"ab"));
    assert!(bytes_eq(b"", b""));
}
