use rottenbrit::error::Error;
use rottenbrit::metainfo::{get_info_hash, pieces_from_bytes, Info, MetaInfo, Sha1Hash};

const SINGLE: &[u8] = b"d8:announce40:http://tracker.example.org:6969/announce4:infod6:lengthi4096e4:name8:test.iso12:piece lengthi16384e6:pieces20:AAAAAAAAAAAAAAAAAAAAee";
const OTHER_ANNOUNCE: &[u8] = b"d8:announce38:http://other.example.net:8080/announce4:infod6:lengthi4096e4:name8:test.iso12:piece lengthi16384e6:pieces20:AAAAAAAAAAAAAAAAAAAAee";
const OTHER_NAME: &[u8] = b"d8:announce40:http://tracker.example.org:6969/announce4:infod6:lengthi4096e4:name9:test2.iso12:piece lengthi16384e6:pieces20:AAAAAAAAAAAAAAAAAAAAee";
const MULTI: &[u8] = b"d8:announce40:http://tracker.example.org:6969/announce4:infod5:filesld6:lengthi100e4:pathl3:dir5:f.txteed6:lengthi50e4:pathl5:g.bineee4:name4:pack12:piece lengthi16384e6:pieces20:BBBBBBBBBBBBBBBBBBBBee";
const BAD_PIECES: &[u8] = b"d8:announce40:http://tracker.example.org:6969/announce4:infod6:lengthi4096e4:name8:test.iso12:piece lengthi16384e6:pieces21:AAAAAAAAAAAAAAAAAAAAAee";

#[test]
fn into_metainfo() {
    let mi = MetaInfo::from_bytes(SINGLE).expect("deserialize");
    assert_eq!(mi.announce, b"http://tracker.example.org:6969/announce".to_vec());
    match &mi.info {
        Info::MiInfo(si) => {
            assert_eq!(si.name, b"test.iso".to_vec());
            assert_eq!(si.piece_length, 16384);
            assert_eq!(si.length, 4096);
            assert_eq!(si.pieces.len(), 1);
            assert_eq!(si.pieces[0].as_bytes(), &[b'A'; 20]);
        }
        Info::MiMultiInfo(_) => panic!("expected a single-file info section"),
    }
    assert_eq!(mi.info.length(), 4096);
}

#[test]
fn into_multi_metainfo() {
    let mi = MetaInfo::from_bytes(MULTI).expect("deserialize");
    match &mi.info {
        Info::MiMultiInfo(multi) => {
            assert_eq!(multi.name, b"pack".to_vec());
            assert_eq!(multi.files.len(), 2);
            assert_eq!(multi.files[0].length, 100);
            assert_eq!(
                multi.files[0].path,
                vec![b"dir".to_vec(), b"f.txt".to_vec()]
            );
            assert_eq!(multi.files[1].length, 50);
            assert_eq!(multi.files[1].path, vec![b"g.bin".to_vec()]);
        }
        Info::MiInfo(_) => panic!("expected a multi-file info section"),
    }
    assert_eq!(mi.info.length(), 150);
}

#[test]
fn error_if_pieces_not_multiple_of_20() {
    assert_eq!(MetaInfo::from_bytes(BAD_PIECES), Err(Error::SchemaViolation));
}

#[test]
fn malformed_and_schema_errors_are_distinct() {
    assert_eq!(MetaInfo::from_bytes(b"d8:announce"), Err(Error::MalformedBencode));
    assert_eq!(MetaInfo::from_bytes(b"i42e"), Err(Error::SchemaViolation));
    // announce missing
    assert_eq!(
        MetaInfo::from_bytes(b"d4:infod6:lengthi1e4:name1:x12:piece lengthi1e6:pieces0:ee"),
        Err(Error::SchemaViolation)
    );
    // info carrying both length and files is ambiguous
    assert_eq!(
        MetaInfo::from_bytes(
            b"d8:announce1:a4:infod5:filesle6:lengthi1e4:name1:x12:piece lengthi1e6:pieces0:ee"
        ),
        Err(Error::SchemaViolation)
    );
}

#[test]
fn info_hash_is_sha1_of_raw_info_span() {
    let h = get_info_hash(SINGLE).expect("info hash");
    // SHA-1 of the bytes the info value occupies in SINGLE
    let expected: [u8; 20] = [
        41, 23, 101, 199, 234, 221, 62, 174, 254, 185, 204, 202, 35, 12, 162, 229, 122, 130, 92,
        35,
    ];
    assert_eq!(h.as_bytes(), &expected);
}

#[test]
fn info_hash_ignores_bytes_outside_info() {
    let a = get_info_hash(SINGLE).expect("info hash");
    let b = get_info_hash(OTHER_ANNOUNCE).expect("info hash");
    assert_eq!(a, b);
}

#[test]
fn info_hash_tracks_bytes_inside_info() {
    let a = get_info_hash(SINGLE).expect("info hash");
    let c = get_info_hash(OTHER_NAME).expect("info hash");
    assert_ne!(a, c);
}

#[test]
fn info_hash_errors() {
    assert_eq!(get_info_hash(b"d4:spam"), Err(Error::MalformedBencode));
    assert_eq!(get_info_hash(b"le"), Err(Error::SchemaViolation));
    assert_eq!(get_info_hash(b"d4:spam4:eggse"), Err(Error::SchemaViolation));
}

#[test]
fn sha1_hash_accepts_only_twenty_bytes() {
    assert!(Sha1Hash::new(vec![0u8; 19]).is_none());
    assert!(Sha1Hash::new(vec![0u8; 21]).is_none());
    let h = Sha1Hash::new(vec![5u8; 20]).expect("20 bytes");
    assert_eq!(h.as_bytes(), &[5u8; 20]);
    assert_eq!(h.clone().to_vec(), vec![5u8; 20]);
}

#[test]
fn pieces_split_into_twenty_byte_records() {
    let mut bytes = Vec::new();
    bytes.extend_from_slice(&[1u8; 20]);
    bytes.extend_from_slice(&[2u8; 20]);
    let hs = pieces_from_bytes(&bytes).expect("two records");
    assert_eq!(hs.len(), 2);
    assert_eq!(hs[0].as_bytes(), &[1u8; 20]);
    assert_eq!(hs[1].as_bytes(), &[2u8; 20]);
    assert_eq!(pieces_from_bytes(&[0u8; 30]), Err(Error::SchemaViolation));
    assert_eq!(pieces_from_bytes(&[]).unwrap().len(), 0);
}
