use rustdds::cache_change::{ChangeKind, SequenceNumber};
use rustdds::fragment_assembler::FragmentAssembler;
use rustdds::messages::{DataFrag, DataFragFlags, RepresentationIdentifier};
use rustdds::time::Timestamp;

fn no_flags() -> DataFragFlags {
    DataFragFlags { endianness: false, inline_qos: false, key: false, non_standard_payload: false }
}

fn key_flags() -> DataFragFlags {
    DataFragFlags { endianness: false, inline_qos: false, key: true, non_standard_payload: false }
}

/// A deterministic sample of `len` bytes whose first four bytes are a
/// CDR big-endian payload prefix.
fn sample_data(len: usize) -> Vec<u8> {
    let mut data = Vec::with_capacity(len);
    data.push(0u8);
    data.push(0u8);
    data.push(0u8);
    data.push(0u8);
    for i in 4..len {
        data.push((i * 31 % 251) as u8);
    }
    data
}

/// The sender's cut: fragment `k` (0-based) of `data` in `fs`-byte
/// pieces, the last possibly short.
fn fragment_of(data: &[u8], fs: usize, k: usize) -> Vec<u8> {
    let from = k * fs;
    let to = if (k + 1) * fs <= data.len() { (k + 1) * fs } else { data.len() };
    data[from..to].to_vec()
}

fn frag_msg(sn: i64, data_size: u32, fs: u16, fsn: u32, n: u16, payload: Vec<u8>) -> DataFrag {
    DataFrag {
        writer_sn: SequenceNumber::from(sn),
        data_size,
        fragment_size: fs,
        fragment_starting_num: fsn,
        fragments_in_submessage: n,
        serialized_payload: payload,
    }
}

#[test]
fn single_fragment_sample() {
    let mut assembler = FragmentAssembler::new(128);
    let data = sample_data(100);
    let msg = frag_msg(1, 100, 128, 1, 1, data.clone());
    let out = assembler.new_datafrag(&msg, no_flags(), Timestamp::from_nanos(1));
    let dds = out.expect("one fragment should complete the sample");
    assert_eq!(dds.change_kind, ChangeKind::Alive);
    assert_eq!(dds.payload.representation_identifier, RepresentationIdentifier::CdrBe);
    assert_eq!(dds.payload.value, data[4..].to_vec());
}

#[test]
fn multi_fragment_in_order() {
    let mut assembler = FragmentAssembler::new(256);
    let data = sample_data(1000);
    for k in 0..3usize {
        let msg = frag_msg(7, 1000, 256, (k + 1) as u32, 1, fragment_of(&data, 256, k));
        assert!(assembler.new_datafrag(&msg, no_flags(), Timestamp::from_nanos(k as u64)).is_none());
    }
    assert_eq!(fragment_of(&data, 256, 3).len(), 232);
    let last = frag_msg(7, 1000, 256, 4, 1, fragment_of(&data, 256, 3));
    let dds = assembler.new_datafrag(&last, no_flags(), Timestamp::from_nanos(9)).unwrap();
    assert_eq!(dds.payload.value, data[4..].to_vec());
}

#[test]
fn multi_fragment_out_of_order() {
    let mut assembler = FragmentAssembler::new(256);
    let data = sample_data(1000);
    let order = [3usize, 1, 4, 2];
    let mut completed = None;
    for (step, frag_no) in order.iter().enumerate() {
        let k = frag_no - 1;
        let msg = frag_msg(8, 1000, 256, *frag_no as u32, 1, fragment_of(&data, 256, k));
        let out = assembler.new_datafrag(&msg, no_flags(), Timestamp::from_nanos(step as u64));
        if step + 1 < order.len() {
            assert!(out.is_none());
        } else {
            completed = out;
        }
    }
    let dds = completed.expect("completion on the last arriving fragment");
    assert_eq!(dds.payload.value, data[4..].to_vec());
}

#[test]
fn batched_submessage() {
    let mut assembler = FragmentAssembler::new(256);
    let data = sample_data(1000);
    let msg = frag_msg(9, 1000, 256, 1, 4, data.clone());
    let dds = assembler.new_datafrag(&msg, no_flags(), Timestamp::from_nanos(1)).unwrap();
    assert_eq!(dds.payload.value, data[4..].to_vec());
}

#[test]
fn dispose_sample_carries_key() {
    let mut assembler = FragmentAssembler::new(128);
    let data = sample_data(64);
    let msg = frag_msg(2, 64, 128, 1, 1, data.clone());
    let dds = assembler.new_datafrag(&msg, key_flags(), Timestamp::from_nanos(1)).unwrap();
    assert_eq!(dds.change_kind, ChangeKind::NotAliveDisposed);
    assert_eq!(dds.payload.value, data[4..].to_vec());
}

#[test]
fn representation_options_come_from_the_wire() {
    let mut assembler = FragmentAssembler::new(64);
    let mut data = sample_data(32);
    data[1] = 1; // CDR little-endian
    data[2] = 0xAA;
    data[3] = 0xBB;
    let msg = frag_msg(3, 32, 64, 1, 1, data.clone());
    let dds = assembler.new_datafrag(&msg, no_flags(), Timestamp::from_nanos(1)).unwrap();
    assert_eq!(dds.payload.representation_identifier, RepresentationIdentifier::CdrLe);
    assert_eq!(dds.payload.representation_options, (0xAA, 0xBB));
}

#[test]
fn unknown_representation_identifier_drops_sample() {
    let mut assembler = FragmentAssembler::new(64);
    let mut data = sample_data(32);
    data[0] = 9;
    data[1] = 9;
    let msg = frag_msg(4, 32, 64, 1, 1, data);
    assert!(assembler.new_datafrag(&msg, no_flags(), Timestamp::from_nanos(1)).is_none());
}

#[test]
fn malformed_fragments_are_dropped() {
    let mut assembler = FragmentAssembler::new(256);
    let data = sample_data(1000);
    // 1-based numbering: fragment number zero is invalid
    let zero_start = frag_msg(5, 1000, 256, 0, 1, fragment_of(&data, 256, 0));
    assert!(assembler.new_datafrag(&zero_start, no_flags(), Timestamp::from_nanos(1)).is_none());
    // past the fragment count
    let past_end = frag_msg(5, 1000, 256, 5, 1, vec![0u8; 256]);
    assert!(assembler.new_datafrag(&past_end, no_flags(), Timestamp::from_nanos(2)).is_none());
    // a run that would write past the buffer
    let too_many = frag_msg(5, 1000, 256, 3, 3, vec![0u8; 744]);
    assert!(assembler.new_datafrag(&too_many, no_flags(), Timestamp::from_nanos(3)).is_none());
    // payload length not matching the fragments it claims to carry
    let short_payload = frag_msg(5, 1000, 256, 1, 1, vec![0u8; 100]);
    assert!(assembler.new_datafrag(&short_payload, no_flags(), Timestamp::from_nanos(4)).is_none());
    // an empty sample can never be assembled
    let empty = frag_msg(6, 0, 256, 1, 1, vec![]);
    assert!(assembler.new_datafrag(&empty, no_flags(), Timestamp::from_nanos(5)).is_none());
    // after all those drops, the honest fragments still assemble the sample
    for k in 0..4usize {
        let msg = frag_msg(5, 1000, 256, (k + 1) as u32, 1, fragment_of(&data, 256, k));
        let out = assembler.new_datafrag(&msg, no_flags(), Timestamp::from_nanos(10 + k as u64));
        if k < 3 {
            assert!(out.is_none());
        } else {
            assert_eq!(out.unwrap().payload.value, data[4..].to_vec());
        }
    }
}

#[test]
fn duplicate_fragments_are_harmless() {
    let mut assembler = FragmentAssembler::new(256);
    let data = sample_data(600);
    let first = frag_msg(11, 600, 256, 1, 1, fragment_of(&data, 256, 0));
    assert!(assembler.new_datafrag(&first, no_flags(), Timestamp::from_nanos(1)).is_none());
    let again = frag_msg(11, 600, 256, 1, 1, fragment_of(&data, 256, 0));
    assert!(assembler.new_datafrag(&again, no_flags(), Timestamp::from_nanos(2)).is_none());
    let second = frag_msg(11, 600, 256, 2, 1, fragment_of(&data, 256, 1));
    assert!(assembler.new_datafrag(&second, no_flags(), Timestamp::from_nanos(3)).is_none());
    let third = frag_msg(11, 600, 256, 3, 1, fragment_of(&data, 256, 2));
    let dds = assembler.new_datafrag(&third, no_flags(), Timestamp::from_nanos(4)).unwrap();
    assert_eq!(dds.payload.value, data[4..].to_vec());
}

#[test]
fn interleaved_writers_sequence_numbers() {
    let mut assembler = FragmentAssembler::new(256);
    let data_a = sample_data(512);
    let mut data_b = sample_data(512);
    data_b[10] = 77;
    let a1 = frag_msg(20, 512, 256, 1, 1, fragment_of(&data_a, 256, 0));
    let b1 = frag_msg(21, 512, 256, 1, 1, fragment_of(&data_b, 256, 0));
    assert!(assembler.new_datafrag(&a1, no_flags(), Timestamp::from_nanos(1)).is_none());
    assert!(assembler.new_datafrag(&b1, no_flags(), Timestamp::from_nanos(2)).is_none());
    let b2 = frag_msg(21, 512, 256, 2, 1, fragment_of(&data_b, 256, 1));
    let dds_b = assembler.new_datafrag(&b2, no_flags(), Timestamp::from_nanos(3)).unwrap();
    assert_eq!(dds_b.payload.value, data_b[4..].to_vec());
    let a2 = frag_msg(20, 512, 256, 2, 1, fragment_of(&data_a, 256, 1));
    let dds_a = assembler.new_datafrag(&a2, no_flags(), Timestamp::from_nanos(4)).unwrap();
    assert_eq!(dds_a.payload.value, data_a[4..].to_vec());
}

#[test]
fn representation_identifier_round_trip() {
    let ids = [
        RepresentationIdentifier::CdrBe,
        RepresentationIdentifier::CdrLe,
        RepresentationIdentifier::PlCdrBe,
        RepresentationIdentifier::PlCdrLe,
    ];
    for id in ids {
        let (b0, b1) = id.to_bytes();
        assert_eq!(RepresentationIdentifier::from_bytes(b0, b1), Some(id));
    }
    assert_eq!(RepresentationIdentifier::from_bytes(1, 0), None);
    assert_eq!(RepresentationIdentifier::from_bytes(0, 4), None);
}

#[test]
fn stale_buffers_are_evicted() {
    let mut assembler = FragmentAssembler::new(256);
    let data = sample_data(512);
    let old_frag = frag_msg(30, 512, 256, 1, 1, fragment_of(&data, 256, 0));
    assert!(assembler.new_datafrag(&old_frag, no_flags(), Timestamp::from_nanos(1_000)).is_none());
    let fresh_frag = frag_msg(31, 512, 256, 1, 1, fragment_of(&data, 256, 0));
    assert!(assembler
        .new_datafrag(&fresh_frag, no_flags(), Timestamp::from_nanos(900_000))
        .is_none());
    // the buffer last written 999_000 ns ago is stale at a 500_000 ns threshold
    assembler.gc(Timestamp::from_nanos(1_000_000), 500_000);
    let fresh_rest = frag_msg(31, 512, 256, 2, 1, fragment_of(&data, 256, 1));
    let dds = assembler
        .new_datafrag(&fresh_rest, no_flags(), Timestamp::from_nanos(1_000_001))
        .unwrap();
    assert_eq!(dds.payload.value, data[4..].to_vec());
    // the evicted sample must start over: its second fragment alone completes nothing
    let old_rest = frag_msg(30, 512, 256, 2, 1, fragment_of(&data, 256, 1));
    assert!(assembler
        .new_datafrag(&old_rest, no_flags(), Timestamp::from_nanos(1_000_002))
        .is_none());
    let old_again = frag_msg(30, 512, 256, 1, 1, fragment_of(&data, 256, 0));
    let dds2 = assembler
        .new_datafrag(&old_again, no_flags(), Timestamp::from_nanos(1_000_003))
        .unwrap();
    assert_eq!(dds2.payload.value, data[4..].to_vec());
}
