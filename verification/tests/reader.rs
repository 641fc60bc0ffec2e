use op_reth::encode::encode_item;
use op_reth::error::DecodeError;
use op_reth::item::Item;
use op_reth::primitives::{uint_from_bytes, H256, U256};
use op_reth::reader::{read_header, read_item};
use rlp::{Rlp, RlpStream};

fn scalar(bytes: &[u8]) -> Item {
    Item::Scalar(bytes.to_vec())
}

#[test]
fn single_small_byte_is_its_own_scalar() {
    assert_eq!(read_item(&[0x00]), Ok((scalar(&[0x00]), 1)));
    assert_eq!(read_item(&[0x7f, 0x01]), Ok((scalar(&[0x7f]), 1)));
    let h = read_header(&[0x7f], 0, 1).unwrap();
    assert_eq!((h.list, h.start, h.len), (false, 0, 1));
}

#[test]
fn short_string() {
    assert_eq!(read_item(&[0x80]), Ok((scalar(&[]), 1)));
    assert_eq!(read_item(&[0x83, b'd', b'o', b'g']), Ok((scalar(b"dog"), 4)));
    assert_eq!(read_item(&[0x81, 0x80]), Ok((scalar(&[0x80]), 2)));
    let mut bytes = vec![0xb7];
    bytes.extend_from_slice(&[9u8; 55]);
    assert_eq!(read_item(&bytes), Ok((scalar(&[9u8; 55]), 56)));
    let h = read_header(&bytes, 0, 56).unwrap();
    assert_eq!((h.list, h.start, h.len), (false, 1, 55));
}

#[test]
fn long_string() {
    let mut bytes = vec![0xb8, 56];
    bytes.extend_from_slice(&[7u8; 56]);
    assert_eq!(read_item(&bytes), Ok((scalar(&[7u8; 56]), 58)));
    let mut bytes = vec![0xb9, 0x01, 0x00];
    bytes.extend_from_slice(&[7u8; 256]);
    bytes.push(0xee);
    assert_eq!(read_item(&bytes), Ok((scalar(&[7u8; 256]), 259)));
    let h = read_header(&bytes, 0, bytes.len()).unwrap();
    assert_eq!((h.list, h.start, h.len), (false, 3, 256));
}

#[test]
fn short_and_long_list() {
    assert_eq!(read_item(&[0xc0]), Ok((Item::List(vec![]), 1)));
    let cat_dog = [0xc8, 0x83, b'c', b'a', b't', 0x83, b'd', b'o', b'g'];
    assert_eq!(
        read_item(&cat_dog),
        Ok((Item::List(vec![scalar(b"cat"), scalar(b"dog")]), 9))
    );
    let nested = [0xc7, 0xc0, 0xc1, 0xc0, 0xc3, 0xc0, 0xc1, 0xc0];
    let empty = || Item::List(vec![]);
    assert_eq!(
        read_item(&nested),
        Ok((
            Item::List(vec![
                empty(),
                Item::List(vec![empty()]),
                Item::List(vec![empty(), Item::List(vec![empty()])]),
            ]),
            8
        ))
    );
    let mut long = vec![0xf8, 60];
    for _ in 0..20 {
        long.extend_from_slice(&[0x82, 0xab, 0xcd]);
    }
    let (item, used) = read_item(&long).unwrap();
    assert_eq!(used, 62);
    let members: Vec<Item> = (0..20).map(|_| scalar(&[0xab, 0xcd])).collect();
    assert_eq!(item, Item::List(members));
    let h = read_header(&long, 0, long.len()).unwrap();
    assert_eq!((h.list, h.start, h.len), (true, 2, 60));
}

#[test]
fn truncated_input() {
    assert_eq!(read_item(&[]), Err(DecodeError::TruncatedInput { offset: 0 }));
    assert_eq!(read_item(&[0x83, 1, 2]), Err(DecodeError::TruncatedInput { offset: 0 }));
    assert_eq!(read_item(&[0xc1]), Err(DecodeError::TruncatedInput { offset: 0 }));
    let mut bytes = vec![0xb8, 56];
    bytes.extend_from_slice(&[7u8; 55]);
    assert_eq!(read_item(&bytes), Err(DecodeError::TruncatedInput { offset: 0 }));
    assert_eq!(read_item(&[0xc3, 0x80, 0x82, 0x01]), Err(DecodeError::TruncatedInput { offset: 2 }));
}

#[test]
fn invalid_length_encoding() {
    let invalid = Err(DecodeError::InvalidLengthEncoding { offset: 0 });
    // the length field is cut short
    assert_eq!(read_item(&[0xb8]), invalid);
    assert_eq!(read_item(&[0xb9, 0x01]), invalid);
    assert_eq!(read_item(&[0xf9, 0x01]), invalid);
    // the length field starts with zero
    let mut bytes = vec![0xb9, 0x00, 0x38];
    bytes.extend_from_slice(&[7u8; 56]);
    assert_eq!(read_item(&bytes), invalid);
    // the long form for a length that the short form can state
    let mut bytes = vec![0xb8, 55];
    bytes.extend_from_slice(&[7u8; 55]);
    assert_eq!(read_item(&bytes), invalid);
    let mut bytes = vec![0xf8, 3];
    bytes.extend_from_slice(&[0x80, 0x80, 0x80]);
    assert_eq!(read_item(&bytes), invalid);
    // a small byte under a prefix
    assert_eq!(read_item(&[0x81, 0x05]), invalid);
    // where in the buffer the item stands
    assert_eq!(
        read_item(&[0xc3, 0x80, 0x81, 0x05]),
        Err(DecodeError::InvalidLengthEncoding { offset: 2 })
    );
}

#[test]
fn length_out_of_range() {
    let bytes = [0xbf, 0xff, 0xff, 0xff, 0xff, 0xff, 0xff, 0xff, 0xff, 0x00];
    let r = read_item(&bytes);
    if usize::BITS < 64 {
        assert_eq!(r, Err(DecodeError::InvalidLengthEncoding { offset: 0 }));
    } else {
        assert_eq!(r, Err(DecodeError::TruncatedInput { offset: 0 }));
    }
}

#[test]
fn encoding_is_what_the_reader_reads() {
    let samples: Vec<Vec<u8>> = vec![
        vec![0x00],
        vec![0x7f],
        vec![0x80],
        vec![0x81, 0x80],
        vec![0x83, 1, 2, 3],
        vec![0xc0],
        vec![0xc8, 0x83, b'c', b'a', b't', 0x83, b'd', b'o', b'g'],
        vec![0xc7, 0xc0, 0xc1, 0xc0, 0xc3, 0xc0, 0xc1, 0xc0],
    ];
    for bytes in samples {
        let (item, used) = read_item(&bytes).unwrap();
        assert_eq!(used, bytes.len());
        assert_eq!(encode_item(&item), bytes);
    }
    for len in [55usize, 56, 255, 256, 65535, 65536, 70000] {
        let item = Item::Scalar(vec![0xabu8; len]);
        let bytes = encode_item(&item);
        assert_eq!(read_item(&bytes), Ok((Item::Scalar(vec![0xabu8; len]), bytes.len())));
        let list = Item::List(vec![Item::Scalar(vec![0xabu8; len]), Item::Scalar(vec![])]);
        let bytes = encode_item(&list);
        let (back, used) = read_item(&bytes).unwrap();
        assert_eq!(used, bytes.len());
        assert_eq!(back, list);
    }
}

#[test]
fn encoder_writes_exact_prefixes() {
    assert_eq!(encode_item(&Item::Scalar(vec![])), vec![0x80]);
    assert_eq!(encode_item(&Item::Scalar(vec![0x7f])), vec![0x7f]);
    assert_eq!(encode_item(&Item::Scalar(vec![0x80])), vec![0x81, 0x80]);
    assert_eq!(encode_item(&Item::List(vec![])), vec![0xc0]);
    let long = encode_item(&Item::Scalar(vec![1u8; 56]));
    assert_eq!(&long[..2], &[0xb8, 56]);
    let longer = encode_item(&Item::Scalar(vec![1u8; 0x0102]));
    assert_eq!(&longer[..3], &[0xb9, 0x01, 0x02]);
    let list = encode_item(&Item::List(vec![Item::Scalar(vec![1u8; 0x010203 - 4])]));
    assert_eq!(&list[..4], &[0xfa, 0x01, 0x02, 0x03]);
}

#[test]
fn encoder_agrees_with_the_stream_encoder() {
    let mut s = RlpStream::new_list(3);
    s.append(&"cat");
    s.begin_list(2);
    s.append(&1024u64);
    s.append_empty_data();
    s.append(&vec![0x42u8; 300]);
    let expected = s.out().to_vec();
    let item = Item::List(vec![
        Item::Scalar(b"cat".to_vec()),
        Item::List(vec![Item::Scalar(vec![0x04, 0x00]), Item::Scalar(vec![])]),
        Item::Scalar(vec![0x42u8; 300]),
    ]);
    assert_eq!(encode_item(&item), expected);
    assert_eq!(read_item(&expected), Ok((item, expected.len())));
}

#[test]
fn reader_agrees_with_the_view_decoder() {
    let mut s = RlpStream::new_list(4);
    s.append(&0x1234_5678_9abc_def0u64);
    s.append(&"dog");
    s.append(&vec![0x99u8; 80]);
    s.append(&0u64);
    let bytes = s.out().to_vec();
    let view = Rlp::new(&bytes);
    let (item, _) = read_item(&bytes).unwrap();
    let members = match item {
        Item::List(members) => members,
        Item::Scalar(_) => panic!("a list was written"),
    };
    assert_eq!(members.len(), view.item_count().unwrap());
    for (i, member) in members.iter().enumerate() {
        let expected = view.at(i).unwrap();
        assert_eq!(encode_item(member), expected.as_raw());
        match member {
            Item::Scalar(payload) => assert_eq!(&payload[..], expected.data().unwrap()),
            Item::List(_) => panic!("only scalars were written"),
        }
    }
    let payload = |i: usize| match &members[i] {
        Item::Scalar(payload) => payload.clone(),
        Item::List(_) => panic!("only scalars were written"),
    };
    assert_eq!(uint_from_bytes(&payload(0), 8), Some(view.val_at::<u64>(0).unwrap()));
    assert_eq!(uint_from_bytes(&payload(3), 8), Some(view.val_at::<u64>(3).unwrap()));
    assert_eq!(uint_from_bytes(&payload(0), 8), Some(0x1234_5678_9abc_def0));
}

#[test]
fn unsigned_integers() {
    assert_eq!(uint_from_bytes(&[], 8), Some(0));
    assert_eq!(uint_from_bytes(&[0x52, 0x08], 8), Some(21000));
    assert_eq!(uint_from_bytes(&[0xff], 1), Some(255));
    assert_eq!(uint_from_bytes(&[0x01, 0x00], 1), None);
    assert_eq!(uint_from_bytes(&[0x00], 1), None);
    assert_eq!(uint_from_bytes(&[0x00, 0x01], 8), None);
    assert_eq!(uint_from_bytes(&[1, 2, 3, 4, 5, 6, 7, 8], 8), Some(0x0102030405060708));
    assert_eq!(uint_from_bytes(&[1, 2, 3, 4, 5, 6, 7, 8, 9], 8), None);
}

#[test]
fn wide_integers_and_hashes() {
    let mut expected = [0u8; 32];
    expected[30] = 0x52;
    expected[31] = 0x08;
    assert_eq!(U256::from_be_slice(&[0x52, 0x08]), Some(U256(expected)));
    assert_eq!(U256::from_be_slice(&[]), Some(U256([0; 32])));
    assert_eq!(U256::from_be_slice(&[0x00, 0x08]), None);
    assert_eq!(U256::from_be_slice(&[1u8; 33]), None);
    assert_eq!(U256::from_be_slice(&[1u8; 32]), Some(U256([1; 32])));
    assert_eq!(H256::from_slice(&[3u8; 32]), Some(H256([3; 32])));
    assert_eq!(H256::from_slice(&[3u8; 31]), None);
    assert_eq!(H256::from_slice(&[3u8; 33]), None);
    assert_eq!(H256::from_slice(&[]), None);
}

#[test]
fn item_shapes() {
    assert!(Item::Scalar(vec![]).is_placeholder());
    assert!(!Item::Scalar(vec![0]).is_placeholder());
    assert!(!Item::List(vec![]).is_placeholder());
    assert!(Item::List(vec![]).is_list());
    assert!(!Item::Scalar(vec![]).is_list());
}

#[test]
fn copies_are_equal_to_what_they_copy() {
    let item = Item::List(vec![
        Item::Scalar(vec![1, 2, 3]),
        Item::List(vec![Item::Scalar(vec![]), Item::List(vec![])]),
    ]);
    let copy = item.clone();
    assert_eq!(copy, item);
    assert_eq!(encode_item(&copy), vec![0xc7, 0x83, 1, 2, 3, 0xc2, 0x80, 0xc0]);
}
