use dtf::{
    append, decode, encode, file_reader, read_len, read_max_ts, read_symbol, DtfError, Update,
};
use std::cmp::Ordering;

fn tick(ts: u32, seq: u16, size: f32) -> Update {
    Update { ts, seq, is_trade: true, is_bid: false, price: 5100.01f32.to_bits(), size: size.to_bits() }
}

fn stored() -> Vec<Update> {
    vec![tick(100, 113, 1.0), tick(101, 113, 2.0), tick(1000000, 123, 3.0)]
}

#[test]
fn should_append() {
    let old = stored();
    let file = encode("NEO_BTC", &old).unwrap();
    let mut new = vec![tick(1000002, 125, 5.0), tick(1000001, 124, 4.0)];
    let out = append(&file, &mut new).unwrap();
    // the new updates were sorted by sequence number
    assert_eq!(new, vec![tick(1000001, 124, 4.0), tick(1000002, 125, 5.0)]);
    let mut all = old.clone();
    all.extend_from_slice(&new);
    assert_eq!(decode(&out).unwrap(), all);
    let mut rdr = file_reader(&out).unwrap();
    assert_eq!(read_symbol(&mut rdr).unwrap(), "NEO_BTC  ");
    assert_eq!(read_len(&mut rdr).unwrap(), 5);
    assert_eq!(read_max_ts(&mut rdr).unwrap(), 1000002);
    // what was there is still there, but for the two rewritten fields
    assert_eq!(&out[..14], &file[..14]);
    assert_eq!(&out[26..file.len()], &file[26..]);
    assert_eq!(&out[14..26], &[0, 0, 0, 0, 0, 0, 0, 5, 0x00, 0x0f, 0x42, 0x42]);
}

#[test]
fn appended_file_equals_the_file_written_at_once_when_batches_line_up() {
    let old = vec![tick(1, 1, 1.0)];
    let file = encode("S", &old).unwrap();
    let mut new = vec![tick(100_000, 2, 2.0)];
    let out = append(&file, &mut new).unwrap();
    let at_once = encode("S", &[old[0], new[0]]).unwrap();
    assert_eq!(out, at_once);
}

#[test]
fn append_starts_a_batch_of_its_own() {
    let old = vec![tick(1, 1, 1.0)];
    let file = encode("S", &old).unwrap();
    let mut new = vec![tick(2, 2, 2.0)];
    let out = append(&file, &mut new).unwrap();
    assert_eq!(out.len(), file.len() + 9 + 14);
    assert_eq!(&out[file.len()..file.len() + 9], &[1, 0, 0, 0, 2, 0, 2, 0, 1]);
    assert_eq!(decode(&out).unwrap(), vec![old[0], new[0]]);
}

#[test]
fn append_of_nothing_changes_nothing() {
    let file = encode("S", &stored()).unwrap();
    let mut none: Vec<Update> = vec![];
    assert_eq!(append(&file, &mut none).unwrap(), file);
}

#[test]
fn append_to_an_empty_file() {
    let file = encode("S", &[]).unwrap();
    let mut new = vec![tick(5, 0, 1.0)];
    let out = append(&file, &mut new).unwrap();
    assert_eq!(out, encode("S", &new).unwrap());
    // the largest timestamp of an empty file is 0, which nothing new may repeat
    let mut zero = vec![tick(0, 0, 1.0)];
    assert_eq!(append(&file, &mut zero), Err(DtfError::OrderingViolation));
}

#[test]
fn append_fills_a_short_file_up_to_the_main_section() {
    let file = encode("S", &[]).unwrap();
    let mut new = vec![tick(5, 1, 1.0)];
    let out = append(&file[..26], &mut new).unwrap();
    assert_eq!(out, encode("S", &new).unwrap());
}

#[test]
fn append_refuses_a_timestamp_that_does_not_follow() {
    let file = encode("S", &stored()).unwrap();
    let mut same = vec![tick(1000000, 124, 1.0)];
    assert_eq!(append(&file, &mut same), Err(DtfError::OrderingViolation));
    let mut one_early = vec![tick(1000001, 124, 1.0), tick(999, 125, 1.0)];
    assert_eq!(append(&file, &mut one_early), Err(DtfError::OrderingViolation));
}

#[test]
fn append_refuses_a_sequence_that_does_not_follow() {
    let file = encode("S", &stored()).unwrap();
    let mut same = vec![tick(1000001, 123, 1.0)];
    assert_eq!(append(&file, &mut same), Err(DtfError::OrderingViolation));
    let mut lower = vec![tick(1000001, 200, 1.0), tick(1000002, 7, 1.0)];
    assert_eq!(append(&file, &mut lower), Err(DtfError::OrderingViolation));
    let mut next = vec![tick(1000001, 124, 1.0)];
    assert!(append(&file, &mut next).is_ok());
}

#[test]
fn append_refuses_new_updates_that_cannot_be_stored() {
    let file = encode("S", &stored()).unwrap();
    // sorted by sequence number, the second lies before the first in time
    let mut new = vec![tick(1000005, 125, 1.0), tick(1000009, 124, 1.0)];
    assert_eq!(append(&file, &mut new), Err(DtfError::OrderingViolation));
}

#[test]
fn append_refuses_a_file_that_cannot_be_read() {
    let file = encode("S", &stored()).unwrap();
    let mut new = vec![tick(1000001, 124, 1.0)];
    let mut bad = file.clone();
    bad[0] = 0;
    assert_eq!(append(&bad, &mut new), Err(DtfError::FormatViolation));
    assert_eq!(append(&file[..file.len() - 1], &mut new), Err(DtfError::FormatViolation));
    assert_eq!(append(&file[..20], &mut new), Err(DtfError::FormatViolation));
}

#[test]
fn append_refuses_a_count_that_cannot_grow() {
    let mut file = encode("S", &stored()).unwrap();
    for b in &mut file[14..22] {
        *b = 0xff;
    }
    let mut new = vec![tick(1000001, 124, 1.0)];
    assert_eq!(append(&file, &mut new), Err(DtfError::FormatViolation));
    // an ordering violation is reported first
    let mut early = vec![tick(1, 124, 1.0)];
    assert_eq!(append(&file, &mut early), Err(DtfError::OrderingViolation));
}

#[test]
fn append_sorts_new_updates_keeping_ties_in_place() {
    let file = encode("S", &[]).unwrap();
    let mut new = vec![tick(10, 9, 1.0), tick(11, 9, 2.0), tick(10, 8, 3.0), tick(12, 9, 4.0)];
    let out = append(&file, &mut new).unwrap();
    let want = vec![tick(10, 8, 3.0), tick(10, 9, 1.0), tick(11, 9, 2.0), tick(12, 9, 4.0)];
    assert_eq!(new, want);
    assert_eq!(decode(&out).unwrap(), want);
}

#[test]
fn append_sorts_even_when_it_refuses() {
    let file = encode("S", &stored()).unwrap();
    let mut new = vec![tick(3, 9, 1.0), tick(2, 8, 2.0)];
    assert_eq!(append(&file, &mut new), Err(DtfError::OrderingViolation));
    assert_eq!(new, vec![tick(2, 8, 2.0), tick(3, 9, 1.0)]);
}

#[test]
fn append_twice() {
    let file = encode("S", &stored()).unwrap();
    let mut a = vec![tick(1000001, 124, 1.0)];
    let mut b = vec![tick(2000000, 500, 1.0), tick(2000001, 501, 1.0)];
    let once = append(&file, &mut a).unwrap();
    let twice = append(&once, &mut b).unwrap();
    let mut all = stored();
    all.extend_from_slice(&a);
    all.extend_from_slice(&b);
    assert_eq!(decode(&twice).unwrap(), all);
    let mut rdr = file_reader(&twice).unwrap();
    assert_eq!(read_len(&mut rdr).unwrap(), 6);
    assert_eq!(read_max_ts(&mut rdr).unwrap(), 2000001);
}

#[test]
fn updates_are_ordered_by_sequence_alone() {
    let a = tick(500, 7, 1.0);
    let b = tick(1, 8, 1.0);
    let c = tick(900, 7, 9.0);
    assert!(a < b);
    assert!(b > a);
    assert!(!(a < c) && !(c < a));
    assert_eq!(a.partial_cmp(&b), Some(Ordering::Less));
    assert_eq!(b.partial_cmp(&a), Some(Ordering::Greater));
    assert_eq!(a.partial_cmp(&c), Some(Ordering::Equal));
    assert!(a != c);
    assert!(a <= c && a >= c);
}

#[test]
fn errors_describe_themselves() {
    assert_eq!(DtfError::FormatViolation.message(), "format violation");
    assert_eq!(DtfError::OrderingViolation.message(), "ordering violation");
}
