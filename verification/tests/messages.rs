use lattice_core::message::{decode, encode};
use lattice_core::proto::storage::{
    AuthorState, ChainTip, Entry, HeadInfo, HeadList, Hlc, Operation, SignedEntry, SyncAuthor,
    SyncState,
};

#[test]
fn test_hlc_roundtrip() {
    let hlc = Hlc { wall_time: 1234567890, counter: 42 };

    let buf = encode(&hlc);
    let decoded: Hlc = decode(&buf).unwrap();

    assert_eq!(decoded.wall_time, 1234567890);
    assert_eq!(decoded.counter, 42);
}

#[test]
fn test_signed_entry() {
    let signed = SignedEntry {
        entry_bytes: vec![1, 2, 3, 4],
        signature: vec![0u8; 64],
        author_id: vec![0u8; 32],
    };

    let buf = encode(&signed);
    let decoded: SignedEntry = decode(&buf).unwrap();
    assert_eq!(decoded.entry_bytes, vec![1, 2, 3, 4]);
}

#[test]
fn bytes_are_those_of_the_wire_format() {
    // Field one as a varint of two bytes, field two as a varint of one.
    let hlc = Hlc { wall_time: 300, counter: 1 };
    assert_eq!(encode(&hlc), vec![0x08, 0xAC, 0x02, 0x10, 0x01]);
    // Default values are left out.
    assert_eq!(encode(&Hlc { wall_time: 0, counter: 0 }), Vec::<u8>::new());
    let signed =
        SignedEntry { entry_bytes: vec![9, 8], signature: vec![7], author_id: vec![] };
    assert_eq!(encode(&signed), vec![0x0A, 2, 9, 8, 0x12, 1, 7]);
    // The same bytes as prost writes for the same fields.
    let mut expected = Vec::new();
    prost::encoding::uint64::encode(1, &300u64, &mut expected);
    prost::encoding::uint32::encode(2, &1u32, &mut expected);
    assert_eq!(encode(&hlc), expected);
}

#[test]
fn unknown_fields_are_skipped() {
    // Field nine of every wire type: varint, eight bytes, bytes, a group, four bytes.
    let mut buf = vec![0x48, 0x05];
    buf.extend([0x49, 1, 2, 3, 4, 5, 6, 7, 8]);
    buf.extend([0x4A, 2, 1, 2]);
    buf.extend([0x4B, 0x08, 0x01, 0x4C]);
    buf.extend([0x4D, 1, 2, 3, 4]);
    buf.extend([0x08, 0x2A]);
    let decoded: Hlc = decode(&buf).unwrap();
    assert_eq!(decoded, Hlc { wall_time: 42, counter: 0 });
}

#[test]
fn broken_bytes_are_no_message() {
    let hlc = |b: &[u8]| decode::<Hlc>(b).unwrap_err().to_string();
    assert_eq!(hlc(&[0x08]), "failed to decode Protobuf message: Hlc.wall_time: invalid varint");
    assert_eq!(
        hlc(&[0x0A, 1, 2]),
        "failed to decode Protobuf message: Hlc.wall_time: \
         invalid wire type: LengthDelimited (expected Varint)"
    );
    assert_eq!(
        decode::<SignedEntry>(&[0x0A, 5, 1]).unwrap_err().to_string(),
        "failed to decode Protobuf message: SignedEntry.entry_bytes: buffer underflow"
    );
    assert_eq!(hlc(&[0xFF; 11]), "failed to decode Protobuf message: invalid varint");
    assert_eq!(hlc(&[0x00]), "failed to decode Protobuf message: invalid tag value: 0");
    assert_eq!(hlc(&[0x0F]), "failed to decode Protobuf message: invalid wire type value: 7");
    assert_eq!(hlc(&[0x4C]), "failed to decode Protobuf message: unexpected end group tag");
    assert_eq!(
        hlc(&[0xFF, 0xFF, 0xFF, 0xFF, 0x1F]),
        "failed to decode Protobuf message: invalid key value: 8589934591"
    );
    assert_eq!(
        decode::<ChainTip>(&[0x1A, 1, 0x08, 5]).unwrap_err().to_string(),
        "failed to decode Protobuf message: ChainTip.hlc: delimited length exceeded"
    );
}

#[test]
fn the_last_field_wins_and_messages_merge() {
    let buf = vec![0x08, 1, 0x08, 2];
    assert_eq!(decode::<Hlc>(&buf).unwrap().wall_time, 2);
    // Two halves of one nested message.
    let buf = vec![0x12, 2, 0x08, 5, 0x12, 2, 0x10, 6];
    let head: HeadInfo = decode(&buf).unwrap();
    assert_eq!(head.hlc, Some(Hlc { wall_time: 5, counter: 6 }));
}

#[test]
fn nested_messages_are_read_back() {
    let entry = Entry {
        version: 1,
        store_id: vec![1u8; 16],
        prev_hash: vec![2u8; 32],
        parent_hashes: vec![vec![3u8; 32], vec![4u8; 32]],
        seq: 7,
        timestamp: Some(Hlc { wall_time: 1000, counter: 2 }),
        ops: vec![
            Operation::put(b"/a".to_vec(), b"x".to_vec()),
            Operation::delete(b"/b".to_vec()),
            Operation { op_type: None },
        ],
    };
    assert_eq!(decode::<Entry>(&encode(&entry)), Ok(entry));
    let list = HeadList {
        heads: vec![HeadInfo {
            value: b"v".to_vec(),
            hlc: None,
            author: vec![1],
            hash: vec![2],
            tombstone: true,
        }],
    };
    assert_eq!(decode::<HeadList>(&encode(&list)), Ok(list));
    let tip = ChainTip { seq: 3, hash: vec![5u8; 32], hlc: Some(Hlc { wall_time: 1, counter: 0 }) };
    assert_eq!(decode::<ChainTip>(&encode(&tip)), Ok(tip));
    let sync = SyncState {
        authors: vec![SyncAuthor {
            author_id: vec![1u8; 32],
            state: Some(AuthorState { seq: 9, hash: vec![0u8; 32], hlc: None }),
        }],
        sender_hlc: Some(Hlc { wall_time: 3, counter: 4 }),
        common_hlc: None,
    };
    assert_eq!(decode::<SyncState>(&encode(&sync)), Ok(sync));
}
