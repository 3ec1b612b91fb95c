use dtf::append::{all_after, can_follow, first_sequence, last_sequence};
use dtf::{
    decode, encode, encode_batches, file_reader, read_first, read_first_batch, read_item,
    read_len, read_max_ts, read_min_ts, read_one_batch, read_symbol, seek_main,
    write_magic_value, write_main, write_metadata, write_reference, write_symbol, DtfError,
    Reader, Update,
};

fn plain(ts: u32, seq: u16) -> Update {
    Update { ts, seq, is_trade: false, is_bid: true, price: 0x4048f5c3, size: 0x3f000000 }
}

fn batch_lengths(main: &[u8]) -> Vec<u16> {
    let mut rdr = Reader::new(main);
    let mut lens = vec![];
    while (rdr.position() as usize) < main.len() {
        let batch = read_one_batch(&mut rdr).unwrap();
        lens.push(batch.len() as u16);
    }
    lens
}

#[test]
fn timestamps_within_the_span_share_a_batch() {
    let ups = vec![plain(1000, 1), plain(1000 + 65534, 2)];
    let main = encode_batches(&ups).unwrap();
    assert_eq!(batch_lengths(&main), vec![2]);
    assert_eq!(main.len(), 9 + 2 * 14);
    // the distance 65534 is stored as 0xfffe
    assert_eq!(&main[9 + 14 + 1..9 + 14 + 3], &[0xff, 0xfe]);
}

#[test]
fn timestamp_at_the_span_opens_a_batch() {
    let ups = vec![plain(1000, 1), plain(1000 + 65535, 2), plain(1000 + 65536, 3)];
    let main = encode_batches(&ups).unwrap();
    assert_eq!(batch_lengths(&main), vec![1, 2]);
    let file = encode("S", &ups).unwrap();
    assert_eq!(decode(&file).unwrap(), ups);
}

#[test]
fn sequences_within_the_span_share_a_batch() {
    let ups = vec![plain(5, 10), plain(5, 10 + 254)];
    let main = encode_batches(&ups).unwrap();
    assert_eq!(batch_lengths(&main), vec![2]);
    assert_eq!(main[9 + 14 + 3], 254);
}

#[test]
fn sequence_at_the_span_opens_a_batch() {
    let ups = vec![plain(5, 10), plain(5, 10 + 255), plain(6, 10 + 256)];
    let main = encode_batches(&ups).unwrap();
    assert_eq!(batch_lengths(&main), vec![1, 2]);
    let file = encode("S", &ups).unwrap();
    assert_eq!(decode(&file).unwrap(), ups);
}

#[test]
fn spans_near_the_top_of_the_ranges_do_not_overflow() {
    let ups = vec![
        plain(u32::MAX - 10, u16::MAX - 10),
        plain(u32::MAX, u16::MAX),
    ];
    let main = encode_batches(&ups).unwrap();
    assert_eq!(batch_lengths(&main), vec![2]);
    let file = encode("S", &ups).unwrap();
    assert_eq!(decode(&file).unwrap(), ups);
}

#[test]
fn full_batch_opens_another() {
    let ups: Vec<Update> = (0..65537u32).map(|_| plain(9, 9)).collect();
    let main = encode_batches(&ups).unwrap();
    assert_eq!(batch_lengths(&main), vec![65535, 2]);
    let file = encode("S", &ups).unwrap();
    assert_eq!(decode(&file).unwrap(), ups);
}

#[test]
fn many_batches_read_back_across_every_boundary() {
    let mut ups = vec![];
    for i in 0..2000u32 {
        ups.push(plain(i * 40_000, (i * 30) as u16));
    }
    let main = encode_batches(&ups).unwrap();
    let lens = batch_lengths(&main);
    assert!(lens.len() > 1);
    assert_eq!(lens.iter().map(|n| *n as usize).sum::<usize>(), ups.len());
    // 40000 < 65535 <= 80000: every batch but the last holds two updates
    assert!(lens.iter().all(|n| *n == 2));
    let file = encode("S", &ups).unwrap();
    assert_eq!(decode(&file).unwrap(), ups);
}

#[test]
fn no_updates_give_no_batches() {
    assert_eq!(encode_batches(&[]).unwrap(), Vec::<u8>::new());
}

#[test]
fn serialize_gives_thirteen_bytes() {
    let u = Update { ts: 0x0102_0304, seq: 0x0a0b, is_trade: true, is_bid: false, price: 0x1122_3344, size: 0x5566_7788 };
    let got = u.serialize(0x0102_0000, 0x0a00).unwrap();
    assert_eq!(got, vec![0x03, 0x04, 0x0b, 1, 0, 0x11, 0x22, 0x33, 0x44, 0x55, 0x66, 0x77, 0x88]);
}

#[test]
fn serialize_refuses_what_precedes_the_reference() {
    let u = plain(100, 50);
    assert_eq!(u.serialize(101, 50), Err(DtfError::OrderingViolation));
    assert_eq!(u.serialize(100, 51), Err(DtfError::OrderingViolation));
    assert!(u.serialize(100, 50).is_ok());
}

#[test]
fn serialize_refuses_what_does_not_fit_the_fields() {
    let u = plain(70_000, 300);
    assert_eq!(u.serialize(0, 300), Err(DtfError::FormatViolation));
    assert_eq!(u.serialize(70_000, 0), Err(DtfError::FormatViolation));
    assert!(u.serialize(70_000 - 65_535, 300 - 255).is_ok());
}

#[test]
fn reference_record_has_nine_bytes() {
    let mut wtr = vec![0xaa];
    write_reference(&mut wtr, 0x0102_0304, 0x0506, 0x0708);
    assert_eq!(wtr, vec![0xaa, 1, 1, 2, 3, 4, 5, 6, 7, 8]);
}

#[test]
fn header_is_written_field_by_field() {
    let ups = vec![plain(3, 1), plain(0x0a0b_0c0d, 2), plain(4, 3)];
    let mut wtr = vec![];
    write_magic_value(&mut wtr);
    assert_eq!(wtr, vec![0x44, 0x54, 0x46, 0x90, 0x01]);
    write_symbol(&mut wtr, "AB").unwrap();
    assert_eq!(&wtr[5..], b"AB       ");
    write_metadata(&mut wtr, &ups);
    assert_eq!(&wtr[14..], &[0, 0, 0, 0, 0, 0, 0, 3, 0x0a, 0x0b, 0x0c, 0x0d]);
}

#[test]
fn refused_symbol_leaves_the_writer_alone() {
    let mut wtr = vec![1, 2, 3];
    assert_eq!(write_symbol(&mut wtr, "0123456789"), Err(DtfError::FormatViolation));
    assert_eq!(wtr, vec![1, 2, 3]);
}

#[test]
fn main_section_starts_at_offset_eighty() {
    let ups = vec![plain(3, 1)];
    let mut short = vec![7, 7];
    write_main(&mut short, &ups).unwrap();
    assert_eq!(&short[..2], &[7, 7]);
    assert!(short[2..80].iter().all(|b| *b == 0));
    assert_eq!(&short[80..], &encode_batches(&ups).unwrap()[..]);

    let mut long = vec![9u8; 100];
    write_main(&mut long, &ups).unwrap();
    assert_eq!(&long[..80], &[9u8; 80][..]);
    assert_eq!(&long[80..], &encode_batches(&ups).unwrap()[..]);
}

#[test]
fn refused_updates_leave_the_writer_alone() {
    let ups = vec![plain(3, 2), plain(3, 1)];
    let mut wtr = vec![7, 7];
    assert_eq!(write_main(&mut wtr, &ups), Err(DtfError::OrderingViolation));
    assert_eq!(wtr, vec![7, 7]);
}

#[test]
fn seek_main_fills_or_cuts() {
    let mut short = vec![1, 2, 3];
    seek_main(&mut short);
    assert_eq!(short.len(), 80);
    assert_eq!(&short[..3], &[1, 2, 3]);
    assert!(short[3..].iter().all(|b| *b == 0));
    let mut long = vec![5u8; 90];
    seek_main(&mut long);
    assert_eq!(long, vec![5u8; 80]);
}

#[test]
fn first_batch_is_read_alone() {
    let ups = vec![plain(1, 1), plain(2, 2), plain(100_000, 3)];
    let file = encode("S", &ups).unwrap();
    let mut rdr = file_reader(&file).unwrap();
    assert_eq!(read_first_batch(&mut rdr).unwrap(), ups[..2].to_vec());
    assert_eq!(rdr.position(), 80 + 9 + 28);
    assert_eq!(read_one_batch(&mut rdr).unwrap(), ups[2..].to_vec());
    assert_eq!(read_one_batch(&mut rdr), Err(DtfError::FormatViolation));
    assert_eq!(read_first(&mut rdr).unwrap(), ups[0]);
    assert_eq!(read_min_ts(&mut rdr).unwrap(), 1);
}

#[test]
fn byte_that_is_no_reference_reads_as_an_empty_batch() {
    let bytes = [0u8, 1];
    let mut rdr = Reader::new(&bytes);
    assert_eq!(read_one_batch(&mut rdr).unwrap(), vec![]);
    assert_eq!(rdr.position(), 1);
    // a reference flag with nothing behind it
    assert_eq!(read_one_batch(&mut rdr), Err(DtfError::FormatViolation));
    assert_eq!(rdr.position(), 1);
}

#[test]
fn reader_reads_big_endian_and_stops_at_the_end() {
    let bytes = [1u8, 2, 3, 4, 5, 6, 7, 8, 9, 10, 11, 12, 13, 14, 15];
    let mut rdr = Reader::new(&bytes);
    assert_eq!(rdr.read_u8(), Some(1));
    assert_eq!(rdr.read_u16(), Some(0x0203));
    assert_eq!(rdr.read_u32(), Some(0x0405_0607));
    assert_eq!(rdr.read_u64(), Some(0x0809_0a0b_0c0d_0e0f));
    assert_eq!(rdr.read_u8(), None);
    rdr.seek(12);
    assert_eq!(rdr.read_u32(), None);
    assert_eq!(rdr.position(), 12);
    assert_eq!(rdr.read_exact(3), Some(&bytes[12..]));
    rdr.seek(1000);
    assert_eq!(rdr.read_u8(), None);
    assert_eq!(rdr.read_exact(0), Some(&bytes[..0]));
}

#[test]
fn failed_reads_leave_the_cursor_at_the_field() {
    let file = encode("S", &[plain(1, 1)]).unwrap();
    let mut rdr = file_reader(&file[..10]).unwrap();
    assert_eq!(rdr.position(), 5);
    assert_eq!(read_symbol(&mut rdr), Err(DtfError::FormatViolation));
    assert_eq!(rdr.position(), 5);
    assert_eq!(read_len(&mut rdr), Err(DtfError::FormatViolation));
    assert_eq!(rdr.position(), 14);
    assert_eq!(read_max_ts(&mut rdr), Err(DtfError::FormatViolation));
    assert_eq!(rdr.position(), 22);
    assert_eq!(read_first(&mut rdr), Err(DtfError::FormatViolation));
    assert_eq!(rdr.position(), 80);
}

#[test]
fn reads_leave_the_cursor_behind_the_field() {
    let file = encode("S", &[plain(1, 1), plain(2, 2)]).unwrap();
    let mut rdr = file_reader(&file).unwrap();
    read_symbol(&mut rdr).unwrap();
    assert_eq!(rdr.position(), 14);
    read_len(&mut rdr).unwrap();
    assert_eq!(rdr.position(), 22);
    read_max_ts(&mut rdr).unwrap();
    assert_eq!(rdr.position(), 26);
    read_min_ts(&mut rdr).unwrap();
    assert_eq!(rdr.position(), 80 + 9 + 28);
}

#[test]
fn one_record_is_read_relative_to_a_reference() {
    let bytes = [0u8, 0x01, 0x00, 0x02, 1, 0, 0, 0, 0, 7, 0, 0, 0, 9, 0xee];
    let mut rdr = Reader::new(&bytes);
    let u = read_item(&mut rdr, 1000, 50).unwrap();
    assert_eq!(u, Update { ts: 1256, seq: 52, is_trade: true, is_bid: false, price: 7, size: 9 });
    assert_eq!(rdr.position(), 14);
    assert_eq!(read_item(&mut rdr, 1000, 50), Err(DtfError::FormatViolation));
    assert_eq!(rdr.position(), 14);
    rdr.seek(0);
    assert_eq!(read_item(&mut rdr, u32::MAX - 255, 50), Err(DtfError::FormatViolation));
    assert_eq!(rdr.position(), 0);
    assert_eq!(read_item(&mut rdr, u32::MAX - 256, u16::MAX - 2).unwrap().ts, u32::MAX);
    rdr.seek(0);
    assert_eq!(read_item(&mut rdr, 0, u16::MAX - 1), Err(DtfError::FormatViolation));
}

#[test]
fn following_is_decided_by_timestamps_and_sequences() {
    let old = vec![plain(10, 5), plain(11, 9), plain(12, 7)];
    assert_eq!(last_sequence(&old), Some(9));
    assert_eq!(first_sequence(&old), Some(5));
    assert_eq!(last_sequence(&[]), None);
    assert_eq!(first_sequence(&[]), None);
    assert!(all_after(9, &old));
    assert!(!all_after(10, &old));
    assert!(all_after(u32::MAX, &[]));
    assert!(can_follow(12, &old, &[plain(13, 10), plain(14, 11)]));
    assert!(!can_follow(12, &old, &[plain(13, 9)]));
    assert!(!can_follow(12, &old, &[plain(12, 10)]));
    assert!(!can_follow(12, &old, &[plain(14, 11), plain(13, 9)]));
    assert!(can_follow(12, &[], &[plain(13, 0)]));
    assert!(can_follow(12, &old, &[]));
}
