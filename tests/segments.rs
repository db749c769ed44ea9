use kvs::segment::{db_list, db_path, segment_generation};
use kvs::writer::PosWriter;

#[test]
fn segment_names_parse() {
    assert_eq!(segment_generation("12.db"), Some(12));
    assert_eq!(segment_generation("0.db"), Some(0));
    assert_eq!(segment_generation("007.db"), Some(7));
    assert_eq!(segment_generation("18446744073709551615.db"), Some(u64::MAX));
}

#[test]
fn other_names_are_not_segments() {
    assert_eq!(segment_generation(".db"), None);
    assert_eq!(segment_generation("x.db"), None);
    assert_eq!(segment_generation("1x.db"), None);
    assert_eq!(segment_generation("12.txt"), None);
    assert_eq!(segment_generation("12"), None);
    assert_eq!(segment_generation("engine"), None);
    assert_eq!(segment_generation("+5.db"), None);
    assert_eq!(segment_generation("18446744073709551616.db"), None);
}

#[test]
fn segment_names_round_trip() {
    assert_eq!(db_path(42), "42.db");
    assert_eq!(db_path(0), "0.db");
    for g in [1u64, 9, 10, 99, 100, 123456789, u64::MAX] {
        assert_eq!(segment_generation(&db_path(g)), Some(g));
    }
}

#[test]
fn listing_sorts_and_skips() {
    let names: Vec<String> =
        ["3.db", "engine", "10.db", "1.db", "03.db", "x.db"].iter().map(|s| s.to_string()).collect();
    assert_eq!(db_list(&names), vec![1, 3, 10]);
    assert_eq!(db_list(&vec![]), Vec::<u64>::new());
}

#[test]
fn writer_tracks_position() {
    let mut w = PosWriter::new(100);
    assert_eq!(w.pos(), 100);
    assert_eq!(w.write(b"hello").unwrap(), 5);
    assert_eq!(w.pos(), 105);
    assert_eq!(w.flush(), b"hello".to_vec());
    assert_eq!(w.pos(), 105);
    assert_eq!(w.flush(), Vec::<u8>::new());
}

#[test]
fn writer_refuses_overflow() {
    let mut w = PosWriter::new(u64::MAX - 1);
    assert!(w.write(b"ab").is_err());
    assert_eq!(w.pos(), u64::MAX - 1);
    assert_eq!(w.write(b"a").unwrap(), 1);
    assert_eq!(w.pos(), u64::MAX);
}
