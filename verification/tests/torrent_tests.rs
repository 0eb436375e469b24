use torrentcore::bencode::{encode, BencodeValue};
use torrentcore::client::Client;
use torrentcore::torrent::{
    announce_url_bytes, parse_peer_addrs, DirectoryError, DownloadState, Info, MetadataError,
    PeersResponse, Torrent, TorrentFile, TorrentState,
};

fn descriptor(announce: &str, length: u32, piece_length: u32, pieces: Vec<u8>) -> Vec<u8> {
    let info = BencodeValue::Dict(vec![
        (b"length".to_vec(), BencodeValue::Int(length as i64)),
        (b"name".to_vec(), BencodeValue::Bytes(b"ab".to_vec())),
        (b"piece length".to_vec(), BencodeValue::Int(piece_length as i64)),
        (b"pieces".to_vec(), BencodeValue::Bytes(pieces)),
    ]);
    let top = BencodeValue::Dict(vec![
        (b"announce".to_vec(), BencodeValue::Bytes(announce.as_bytes().to_vec())),
        (b"info".to_vec(), info),
    ]);
    encode(&top)
}

#[test]
fn parse_descriptor_fields() {
    let raw = descriptor("http://t/a", 2, 1, (0u8..40).collect());
    let t = Torrent::from_bytes(&raw).expect("descriptor should parse");
    assert_eq!(t.torrent_file.announce, b"http://t/a".to_vec());
    assert_eq!(t.torrent_file.info.length, 2);
    assert_eq!(t.torrent_file.info.name, b"ab".to_vec());
    assert_eq!(t.torrent_file.info.piece_length, 1);
    assert_eq!(t.torrent_file.info.pieces.len(), 40);
    assert_eq!(t.n_pieces, 2);
    assert_eq!(t.pieces.len(), 2);
    assert_eq!(t.pieces[0].index, 0);
    assert_eq!(t.pieces[1].index, 1);
    assert!(matches!(t.pieces[0].state, DownloadState::Zero));
    let c = Client::new(t);
    assert!(matches!(c.state, TorrentState::Init));
}

#[test]
fn bad_hash_table_is_rejected() {
    // 30 bytes is not a whole number of 20-byte entries
    let raw = descriptor("http://t/a", 2, 1, vec![0u8; 30]);
    assert_eq!(
        Torrent::from_bytes(&raw),
        Err(MetadataError::InvalidPieceHashTable)
    );
}

#[test]
fn missing_field_is_rejected() {
    let top = BencodeValue::Dict(vec![(
        b"announce".to_vec(),
        BencodeValue::Bytes(b"http://t/a".to_vec()),
    )]);
    let raw = encode(&top);
    assert_eq!(Torrent::from_bytes(&raw), Err(MetadataError::MissingField));
}

#[test]
fn decode_error_is_surfaced() {
    assert!(matches!(
        Torrent::from_bytes(&b"x".to_vec()),
        Err(MetadataError::Decode(_))
    ));
}

#[test]
fn piece_and_fragment_counts() {
    // total = 34 * 16384 + 5 with 7-fragment pieces: the final fragment of
    // the final piece is exactly 5 bytes, every other fragment is default
    let total: u32 = 34 * 16384 + 5;
    let plen: u32 = 7 * 16384;
    let raw = descriptor("http://t/a", total, plen, vec![0u8; 100]);
    let t = Torrent::from_bytes(&raw).expect("descriptor should parse");
    assert_eq!(t.n_pieces, 5);
    for i in 0..4 {
        assert_eq!(t.pieces[i].n_blocks, 7);
        assert_eq!(t.piece_size(i as u32), plen);
    }
    assert_eq!(t.piece_size(4), 6 * 16384 + 5);
    assert_eq!(t.pieces[4].n_blocks, 7);
    let mut a = t.start_piece(4);
    let mut sizes = Vec::new();
    while let Some(req) = a.next_request() {
        assert_eq!(req.index, 4);
        sizes.push(u32::from_be_bytes(req.length));
        // pretend the fragment arrived so the next request may be issued
        let mut payload = Vec::new();
        payload.extend_from_slice(&4u32.to_be_bytes());
        payload.extend_from_slice(&req.begin.to_be_bytes());
        payload.extend_from_slice(&vec![7u8; u32::from_be_bytes(req.length) as usize]);
        let len = (payload.len() + 1) as u32;
        assert_eq!(a.on_frame(len, 7, payload), Ok(true));
    }
    assert_eq!(sizes, vec![16384, 16384, 16384, 16384, 16384, 16384, 5]);
    assert!(a.is_complete());
}

const INFO_DIGEST: [u8; 20] = [
    139, 182, 114, 182, 236, 144, 60, 47, 243, 55, 7, 184, 159, 87, 3, 231, 221, 76, 120, 89,
];

#[test]
fn content_hash_known_value() {
    let info = Info {
        length: 2,
        name: b"ab".to_vec(),
        piece_length: 1,
        pieces: (0u8..40).collect(),
    };
    assert_eq!(info.hash(), INFO_DIGEST);
}

#[test]
fn content_hash_deterministic() {
    let info = Info {
        length: 2,
        name: b"ab".to_vec(),
        piece_length: 1,
        pieces: (0u8..40).collect(),
    };
    assert_eq!(info.hash(), info.hash());
}

#[test]
fn content_hash_changes_on_mutation() {
    let mut pieces: Vec<u8> = (0u8..40).collect();
    let info = Info {
        length: 2,
        name: b"ab".to_vec(),
        piece_length: 1,
        pieces: pieces.clone(),
    };
    let before = info.hash();
    pieces[0] = 1;
    let mutated = Info {
        length: 2,
        name: b"ab".to_vec(),
        piece_length: 1,
        pieces,
    };
    assert_ne!(before, mutated.hash());
    let expected: [u8; 20] = [
        124, 130, 80, 240, 116, 246, 46, 43, 105, 245, 203, 143, 235, 253, 242, 162, 155, 130,
        145, 21,
    ];
    assert_eq!(mutated.hash(), expected);
}

#[test]
fn announce_url_exact() {
    let tf = TorrentFile {
        announce: b"http://t/a".to_vec(),
        info: Info {
            length: 2,
            name: b"ab".to_vec(),
            piece_length: 1,
            pieces: (0u8..40).collect(),
        },
    };
    let url = announce_url_bytes(&tf, &b"00112233445566778899".to_vec(), 6881);
    let expected = "http://t/a?peer_id=00112233445566778899&port=6881&uploaded=0&downloaded=0\
                    &left=2&compact=1&info_hash=%8b%b6%72%b6%ec%90%3c%2f%f3%37%07%b8%9f%57%03\
                    %e7%dd%4c%78%59";
    assert_eq!(String::from_utf8(url).unwrap(), expected);
}

#[test]
fn peers_response_parses() {
    let value = BencodeValue::Dict(vec![
        (b"interval".to_vec(), BencodeValue::Int(1800)),
        (
            b"peers".to_vec(),
            BencodeValue::Bytes(vec![10, 0, 0, 1, 26, 225, 192, 168, 1, 2, 0, 80]),
        ),
    ]);
    let raw = encode(&value);
    let pr = PeersResponse::from_bytes(&raw).expect("response should parse");
    assert_eq!(pr.interval, 1800);
    let addrs = parse_peer_addrs(&pr.peers).expect("peer list should split");
    assert_eq!(addrs.len(), 2);
    assert_eq!(
        (addrs[0].ip0, addrs[0].ip1, addrs[0].ip2, addrs[0].ip3, addrs[0].port),
        (10, 0, 0, 1, 6881)
    );
    assert_eq!(
        (addrs[1].ip0, addrs[1].ip1, addrs[1].ip2, addrs[1].ip3, addrs[1].port),
        (192, 168, 1, 2, 80)
    );
}

#[test]
fn bad_peer_list_is_rejected() {
    let value = BencodeValue::Dict(vec![
        (b"interval".to_vec(), BencodeValue::Int(1800)),
        (b"peers".to_vec(), BencodeValue::Bytes(vec![10, 0, 0, 1])),
    ]);
    let raw = encode(&value);
    assert_eq!(
        PeersResponse::from_bytes(&raw),
        Err(DirectoryError::InvalidPeerList)
    );
    assert_eq!(
        parse_peer_addrs(&vec![1, 2, 3]),
        Err(DirectoryError::InvalidPeerList)
    );
}

#[test]
fn piece_hash_reads_table_entry() {
    let raw = descriptor("http://t/a", 2, 1, (0u8..40).collect());
    let t = Torrent::from_bytes(&raw).expect("descriptor should parse");
    assert_eq!(t.piece_hash(0), (0u8..20).collect::<Vec<u8>>());
    assert_eq!(t.piece_hash(1), (20u8..40).collect::<Vec<u8>>());
}

#[test]
fn piece_hash_matches_digest() {
    let mut enc = b"d6:lengthi2e4:name2:ab12:piece lengthi1e6:pieces40:".to_vec();
    enc.extend(0u8..40);
    enc.push(b'e');
    assert!(torrentcore::torrent::piece_hash_matches(&enc, &INFO_DIGEST.to_vec()));
    let mut wrong = INFO_DIGEST.to_vec();
    wrong[0] ^= 1;
    assert!(!torrentcore::torrent::piece_hash_matches(&enc, &wrong));
    assert!(!torrentcore::torrent::piece_hash_matches(&enc, &vec![1, 2, 3]));
}
