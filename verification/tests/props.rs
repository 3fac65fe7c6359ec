use objstr::api::ObjStr;
use objstr::api::ObjStrError;
use objstr::api::SeekFrom;
use objstr::codec::decode_at;
use objstr::codec::encode;
use objstr::codec::len_calc;
use objstr::codec::peek_length_at;
use objstr::codec::read_be32;
use objstr::stream::MemObjStr;

#[test]
fn round_trip_any_payload() {
    let mut str = MemObjStr::new();
    str.append(b"one".to_vec()).unwrap();
    str.append(vec![]).unwrap();
    str.append(vec![0u8, 0, 0, 13]).unwrap();

    str.seek(SeekFrom::Start(1)).unwrap();
    assert_eq!(str.read().unwrap(), Vec::<u8>::new());

    str.seek(SeekFrom::Start(2)).unwrap();
    assert_eq!(str.read().unwrap(), vec![0u8, 0, 0, 13]);

    str.seek(SeekFrom::Start(0)).unwrap();
    assert_eq!(str.read().unwrap(), b"one".to_vec());
}

#[test]
fn ordering_then_boundary() {
    let mut str = MemObjStr::new();
    str.append(b"a".to_vec()).unwrap();
    str.append(b"bb".to_vec()).unwrap();
    str.append(b"ccc".to_vec()).unwrap();

    str.seek(SeekFrom::Start(0)).unwrap();
    assert_eq!(str.read().unwrap(), b"a".to_vec());
    assert_eq!(str.read().unwrap(), b"bb".to_vec());
    assert_eq!(str.read().unwrap(), b"ccc".to_vec());
    assert_eq!(str.read(), Err(ObjStrError::Boundary));
}

#[test]
fn span_additivity_concrete() {
    let mut str = MemObjStr::new();
    str.append(b"a".to_vec()).unwrap();
    str.append(b"bb".to_vec()).unwrap();
    str.append(b"ccc".to_vec()).unwrap();

    str.seek(SeekFrom::Start(0)).unwrap();
    let whole = str.len(0, 3).unwrap();
    let first = str.len(0, 1).unwrap();
    str.seek(SeekFrom::Start(1)).unwrap();
    let rest = str.len(0, 2).unwrap();
    assert_eq!(whole, first + rest);
    assert_eq!(whole, (1 + 8) + (2 + 8) + (3 + 8));

    str.seek(SeekFrom::Start(2)).unwrap();
    assert_eq!(str.len(1, 1).unwrap(), 3);
}

#[test]
fn rechunk_conserves_length() {
    let mut str = MemObjStr::new();
    str.append(b"Hello, world1".to_vec()).unwrap();
    str.append(b"Hello, world2".to_vec()).unwrap();
    let before = str.as_bytes().len();

    str.seek(SeekFrom::Start(0)).unwrap();
    str.overwrite(vec![b"Hello".to_vec(), b", world1 -- Hello, wo".to_vec()], 2).unwrap();
    assert_eq!(str.as_bytes().len(), before);

    str.seek(SeekFrom::Start(0)).unwrap();
    assert_eq!(str.read().unwrap(), b"Hello".to_vec());
    assert_eq!(str.read().unwrap(), b", world1 -- Hello, wo".to_vec());
}

#[test]
fn rechunk_mismatch_mutates_nothing() {
    let mut str = MemObjStr::new();
    str.append(b"Hello, world1".to_vec()).unwrap();
    let before = str.as_bytes().clone();

    str.seek(SeekFrom::Start(0)).unwrap();
    assert_eq!(
        str.overwrite(vec![b"too short".to_vec()], 1),
        Err(ObjStrError::InvalidInput)
    );
    assert_eq!(str.as_bytes(), &before);

    assert_eq!(str.read().unwrap(), b"Hello, world1".to_vec());
}

#[test]
fn cut_on_empty_stream() {
    let mut str = MemObjStr::new();
    str.cut().unwrap();
    assert_eq!(str.as_bytes(), &vec![0u8]);
    assert_eq!(str.read(), Err(ObjStrError::Boundary));
}

#[test]
fn boundary_reset_directions() {
    let mut str = MemObjStr::new();
    str.append(b"first".to_vec()).unwrap();
    str.append(b"second".to_vec()).unwrap();

    // forward out of range: the next read fails
    assert_eq!(str.seek(SeekFrom::Start(3)), Err(ObjStrError::Boundary));
    assert_eq!(str.read(), Err(ObjStrError::Boundary));

    // backward out of range: the next read yields the first payload
    assert_eq!(str.seek(SeekFrom::Current(-5)), Err(ObjStrError::Boundary));
    assert_eq!(str.read().unwrap(), b"first".to_vec());

    // an end-relative seek moves backward whatever the sign
    str.seek(SeekFrom::End(1)).unwrap();
    assert_eq!(str.read().unwrap(), b"second".to_vec());
    str.seek(SeekFrom::End(-1)).unwrap();
    assert_eq!(str.read().unwrap(), b"second".to_vec());
}

#[test]
fn empty_stream_form() {
    let str = MemObjStr::new();
    assert_eq!(str.as_bytes(), &vec![0u8]);
}

#[test]
fn open_accepts_well_formed_bytes() {
    let mut str = MemObjStr::new();
    str.append(b"kept".to_vec()).unwrap();
    str.append(b"bytes".to_vec()).unwrap();
    let bytes = str.as_bytes().clone();

    let mut reopened = MemObjStr::open(bytes).unwrap();
    assert_eq!(reopened.read().unwrap(), b"kept".to_vec());
    assert_eq!(reopened.read().unwrap(), b"bytes".to_vec());
    assert_eq!(reopened.read(), Err(ObjStrError::Boundary));
}

#[test]
fn open_accepts_the_empty_form() {
    let mut reopened = MemObjStr::open(vec![0u8]).unwrap();
    assert_eq!(reopened.read(), Err(ObjStrError::Boundary));
}

#[test]
fn open_rejects_corrupt_bytes() {
    // no bytes at all: not even a sentinel
    assert_eq!(MemObjStr::open(vec![]).err(), Some(ObjStrError::Corruption));
    // a non-zero byte where the sentinel belongs
    assert_eq!(MemObjStr::open(vec![7u8]).err(), Some(ObjStrError::Corruption));
    // mismatched mirror lengths around a one-byte payload
    let bad = vec![0u8, 0, 0, 1, 0x61, 0, 0, 0, 2, 0];
    assert_eq!(MemObjStr::open(bad).err(), Some(ObjStrError::Corruption));
    // a frame whose payload runs past the end
    let short = vec![0u8, 0, 0, 9, 0x61, 0];
    assert_eq!(MemObjStr::open(short).err(), Some(ObjStrError::Corruption));
}

#[test]
fn encode_frames_a_payload() {
    let frame = encode(&b"Hey".to_vec()).unwrap();
    assert_eq!(frame, b"\x00\x00\x00\x03Hey\x00\x00\x00\x03".to_vec());

    let empty = encode(&Vec::new()).unwrap();
    assert_eq!(empty, vec![0u8, 0, 0, 0, 0, 0, 0, 0]);
}

#[test]
fn decode_reads_a_frame_back() {
    let mut buf = encode(&b"Hey".to_vec()).unwrap();
    buf.push(0u8);
    let (payload, next) = decode_at(&buf, 0).unwrap();
    assert_eq!(payload, b"Hey".to_vec());
    assert_eq!(next, 11);
    assert_eq!(decode_at(&buf, next), Err(ObjStrError::Boundary));
}

#[test]
fn decode_sees_corruption() {
    let bad = vec![0u8, 0, 0, 1, 0x61, 0, 0, 0, 2];
    assert_eq!(decode_at(&bad, 0), Err(ObjStrError::Corruption));
}

#[test]
fn peek_reads_only_the_length() {
    let mut buf = encode(&b"Hey".to_vec()).unwrap();
    buf.push(0u8);
    assert_eq!(peek_length_at(&buf, 0).unwrap(), 3);
    assert_eq!(peek_length_at(&buf, 11), Err(ObjStrError::Boundary));
}

#[test]
fn read_be32_big_endian() {
    let buf = vec![0x12u8, 0x34, 0x56, 0x78];
    assert_eq!(read_be32(&buf, 0), 0x12345678);
}

#[test]
fn len_calc_policy() {
    assert_eq!(len_calc(vec![], 0), 0);
    assert_eq!(len_calc(vec![13], 0), 13 + 8);
    assert_eq!(len_calc(vec![13], 1), 13);
    assert_eq!(len_calc(vec![13, 13], 1), 13 * 2 + 8);
    assert_eq!(len_calc(vec![13], 2), 13 + 8 - 8 * 2);
    // the overhead can outweigh the span: the result goes negative
    assert_eq!(len_calc(vec![5], 2), -3);
    assert_eq!(len_calc(vec![], 1), -8);
}

#[test]
fn trait_facade_delegates() {
    let mut s = MemObjStr::new();
    ObjStr::append(&mut s, b"x".to_vec()).unwrap();
    ObjStr::seek(&mut s, SeekFrom::Start(0)).unwrap();
    assert_eq!(ObjStr::len(&mut s, 1, 1).unwrap(), 1);
    assert_eq!(ObjStr::read(&mut s).unwrap(), b"x".to_vec());
    ObjStr::seek(&mut s, SeekFrom::Start(0)).unwrap();
    ObjStr::overwrite(&mut s, vec![b"y".to_vec()], 1).unwrap();
    assert_eq!(s.as_bytes(), &b"\x00\x00\x00\x01y\x00\x00\x00\x01\x00".to_vec());
    ObjStr::cut(&mut s).unwrap();
    assert_eq!(s.as_bytes(), &vec![0u8]);
}

#[test]
fn append_then_cut_mid_stream() {
    let mut str = MemObjStr::new();
    str.append(b"aa".to_vec()).unwrap();
    str.append(b"bb".to_vec()).unwrap();
    str.append(b"cc".to_vec()).unwrap();

    str.seek(SeekFrom::End(-2)).unwrap();
    str.cut().unwrap();
    assert_eq!(
        str.as_bytes(),
        &b"\x00\x00\x00\x02aa\x00\x00\x00\x02\x00".to_vec()
    );

    // the stream stays usable after the cut
    str.append(b"dd".to_vec()).unwrap();
    str.seek(SeekFrom::Start(1)).unwrap();
    assert_eq!(str.read().unwrap(), b"dd".to_vec());
}
