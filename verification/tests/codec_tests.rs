use cola::codec::{read_bool, read_u64, write_bool, write_u64};
use cola::{DecodeError, EncodedReplica, Replica, PROTOCOL_VERSION};
use sha2::Digest;

#[test]
fn varint_round_trip() {
    let values: [u64; 9] = [0, 1, 127, 128, 300, 16383, 16384, 123456789, u64::MAX];
    let mut buf: Vec<u8> = Vec::new();
    for v in values {
        write_u64(&mut buf, v);
    }
    let mut pos = 0usize;
    for v in values {
        let (parsed, next) = read_u64(&buf, pos).unwrap();
        assert_eq!(parsed, v);
        pos = next;
    }
    assert_eq!(pos, buf.len());
}

#[test]
fn varint_exact_bytes() {
    let mut buf: Vec<u8> = Vec::new();
    write_u64(&mut buf, 300);
    // 300 = 44 + 2 * 128: low group with the continuation bit, then 2.
    assert_eq!(buf, vec![0xac, 0x02]);
}

#[test]
fn varint_rejects_padding() {
    // A padded encoding of zero is not canonical and must be rejected.
    let buf = vec![0x80u8, 0x00u8];
    assert!(read_u64(&buf, 0).is_none());
    assert!(read_u64(&Vec::new(), 0).is_none());
    // Eleven continuation bytes cannot be a u64.
    let too_long = vec![0xffu8; 11];
    assert!(read_u64(&too_long, 0).is_none());
}

#[test]
fn bool_round_trip() {
    let mut buf: Vec<u8> = Vec::new();
    write_bool(&mut buf, true);
    write_bool(&mut buf, false);
    assert_eq!(read_bool(&buf, 0).unwrap(), (true, 1));
    assert_eq!(read_bool(&buf, 1).unwrap(), (false, 2));
    assert!(read_bool(&vec![7u8], 0).is_none());
}

#[test]
fn encode_round_trip() {
    // Decoding an encoded replica under a fresh id carries over the whole
    // document state.
    let mut r1 = Replica::new(1, 5);
    let _ = r1.inserted(5, 3);
    let encoded = r1.encode();
    let r2 = Replica::decode(2, &encoded).unwrap();
    assert_eq!(r2.id(), 2);
    assert_eq!(r2.len(), 8);
    assert!(r2.eq_decoded(&r1.fork(2)));
}

#[test]
fn encode_round_trip_with_tombstones_and_backlog() {
    let mut r1 = Replica::new(1, 8);
    let mut r3 = r1.fork(3);
    let _ = r1.deleted(2, 5);
    // A backlogged insertion travels along.
    let _ = r3.inserted(8, 1);
    let late = r3.inserted(9, 1);
    assert!(r1.integrate_insertion(&late).is_none());
    let encoded = r1.encode();
    let r2 = Replica::decode(2, &encoded).unwrap();
    assert_eq!(r2.len(), 5);
    assert!(r2.eq_decoded(&r1.fork(2)));
    let decoded_again = Replica::decode(4, &r2.encode()).unwrap();
    assert!(decoded_again.eq_decoded(&r2.fork(4)));
}

#[test]
fn decoded_replica_keeps_editing() {
    let mut r1 = Replica::new(1, 4);
    let mut r2 = Replica::decode(2, &r1.encode()).unwrap();
    let ins = r2.inserted(4, 2);
    assert_eq!(r1.integrate_insertion(&ins), Some(4));
    assert_eq!(r1.len(), 6);
    assert_eq!(r2.len(), 6);
}

#[test]
fn decode_rejects_other_protocol() {
    let r1 = Replica::new(1, 3);
    let good = r1.encode();
    let bad = EncodedReplica::new(
        PROTOCOL_VERSION + 1,
        good.checksum().clone(),
        good.bytes().clone(),
    );
    assert_eq!(
        Replica::decode(2, &bad),
        Err(DecodeError::DifferentProtocol {
            encoded_on: PROTOCOL_VERSION + 1,
            decoding_on: PROTOCOL_VERSION,
        })
    );
}

#[test]
fn decode_rejects_corrupted_payload() {
    let r1 = Replica::new(1, 3);
    let good = r1.encode();
    let mut bytes = good.bytes().clone();
    bytes[0] ^= 0xff;
    let bad = EncodedReplica::new(PROTOCOL_VERSION, good.checksum().clone(), bytes);
    assert_eq!(Replica::decode(2, &bad), Err(DecodeError::ChecksumFailed));
}

#[test]
fn decode_rejects_invalid_data() {
    // A correct checksum over garbage passes the envelope checks and fails
    // structurally.
    let garbage = vec![0xffu8, 0x03, 0x07];
    let checksum: Vec<u8> = sha2::Sha256::digest(garbage.as_slice()).to_vec();
    let bad = EncodedReplica::new(PROTOCOL_VERSION, checksum, garbage);
    assert_eq!(Replica::decode(2, &bad), Err(DecodeError::InvalidData));
}

#[test]
fn decode_rejects_trailing_garbage() {
    let r1 = Replica::new(1, 1);
    let good = r1.encode();
    let mut bytes = good.bytes().clone();
    bytes.push(0);
    let checksum: Vec<u8> = sha2::Sha256::digest(bytes.as_slice()).to_vec();
    let bad = EncodedReplica::new(PROTOCOL_VERSION, checksum, bytes);
    assert_eq!(Replica::decode(2, &bad), Err(DecodeError::InvalidData));
}

#[test]
fn checksum_is_the_sha256_of_the_payload() {
    let r = Replica::new(1, 3);
    let encoded = r.encode();
    let expect: Vec<u8> = sha2::Sha256::digest(encoded.bytes().as_slice()).to_vec();
    assert_eq!(encoded.checksum().as_slice(), expect.as_slice());
    assert_eq!(encoded.checksum().len(), 32);
    assert_eq!(encoded.protocol_version(), PROTOCOL_VERSION);
}

#[test]
fn envelope_round_trip() {
    let mut r1 = Replica::new(1, 4);
    let _ = r1.inserted(4, 2);
    let enc = r1.encode();
    let wire = enc.to_bytes();
    let back = EncodedReplica::from_bytes(&wire).unwrap();
    assert_eq!(back, enc);
    let r2 = Replica::decode(2, &back).unwrap();
    assert!(r2.eq_decoded(&r1.fork(2)));
}

#[test]
fn envelope_rejects_bad_streams() {
    let enc = Replica::new(1, 1).encode();
    let mut trailing = enc.to_bytes();
    trailing.push(0);
    assert!(EncodedReplica::from_bytes(&trailing).is_none());
    let whole = enc.to_bytes();
    let truncated: Vec<u8> = whole[..whole.len() - 1].to_vec();
    assert!(EncodedReplica::from_bytes(&truncated).is_none());
    assert!(EncodedReplica::from_bytes(&Vec::new()).is_none());
}
