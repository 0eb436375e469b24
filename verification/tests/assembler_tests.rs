use torrentcore::torrent::{AssemblyError, PieceAssembly};

fn piece_frame(index: u32, begin: u32, body: Vec<u8>) -> (u32, u8, Vec<u8>) {
    let mut payload = Vec::new();
    payload.extend_from_slice(&index.to_be_bytes());
    payload.extend_from_slice(&begin.to_be_bytes());
    payload.extend_from_slice(&body);
    ((payload.len() + 1) as u32, 7, payload)
}

fn fresh(piece_size: u32, n_blocks: u32) -> PieceAssembly {
    PieceAssembly {
        piece_index: 0,
        piece_size,
        n_blocks,
        next_block: 0,
        blocks: Vec::new(),
    }
}

#[test]
fn three_fragments_reassemble_in_order() {
    // a piece of fragments sized 16384, 16384 and 200, requested in order,
    // with one unrelated frame interleaved and discarded
    let mut a = fresh(2 * 16384 + 200, 3);

    let r0 = a.next_request().expect("first request");
    assert_eq!((r0.index, r0.begin), (0, 0));
    assert_eq!(u32::from_be_bytes(r0.length), 16384);
    // an unrelated frame arrives first and must be discarded
    let (len, id, payload) = (5, 4u8, vec![0, 0, 0, 9]);
    assert_eq!(a.on_frame(len, id, payload), Ok(false));
    let (len, id, payload) = piece_frame(0, 0, vec![1; 16384]);
    assert_eq!(a.on_frame(len, id, payload), Ok(true));

    let r1 = a.next_request().expect("second request");
    assert_eq!((r1.index, r1.begin), (0, 16384));
    assert_eq!(u32::from_be_bytes(r1.length), 16384);
    let (len, id, payload) = piece_frame(0, 16384, vec![2; 16384]);
    assert_eq!(a.on_frame(len, id, payload), Ok(true));

    let r2 = a.next_request().expect("third request");
    assert_eq!((r2.index, r2.begin), (0, 32768));
    assert_eq!(u32::from_be_bytes(r2.length), 200);
    let (len, id, payload) = piece_frame(0, 32768, vec![3; 200]);
    assert_eq!(a.on_frame(len, id, payload), Ok(true));

    assert!(a.next_request().is_none());
    assert!(a.is_complete());

    let piece = a.assemble();
    assert_eq!(piece.len(), 32968);
    // fragment boundaries sit exactly at the requested offsets
    assert!(piece[..16384].iter().all(|&b| b == 1));
    assert!(piece[16384..32768].iter().all(|&b| b == 2));
    assert!(piece[32768..].iter().all(|&b| b == 3));
}

#[test]
fn wrong_offset_is_rejected() {
    let mut a = fresh(2 * 16384 + 200, 3);
    a.next_request().unwrap();
    let (len, id, payload) = piece_frame(0, 16384, vec![1; 16384]);
    assert_eq!(a.on_frame(len, id, payload), Err(AssemblyError::UnexpectedFragment));
}

#[test]
fn wrong_piece_index_is_rejected() {
    let mut a = fresh(2 * 16384 + 200, 3);
    a.next_request().unwrap();
    let (len, id, payload) = piece_frame(5, 0, vec![1; 16384]);
    assert_eq!(a.on_frame(len, id, payload), Err(AssemblyError::UnexpectedFragment));
}

#[test]
fn wrong_fragment_size_is_rejected() {
    let mut a = fresh(2 * 16384 + 200, 3);
    a.next_request().unwrap();
    let (len, id, payload) = piece_frame(0, 0, vec![1; 100]);
    assert_eq!(a.on_frame(len, id, payload), Err(AssemblyError::UnexpectedFragment));
}

#[test]
fn short_payload_is_rejected() {
    let mut a = fresh(2 * 16384 + 200, 3);
    a.next_request().unwrap();
    assert_eq!(
        a.on_frame(5, 7, vec![0, 0, 0, 0]),
        Err(AssemblyError::MalformedPiecePayload)
    );
}

#[test]
fn single_fragment_piece() {
    let mut a = fresh(5, 1);
    let r = a.next_request().unwrap();
    assert_eq!(u32::from_be_bytes(r.length), 5);
    let (len, id, payload) = piece_frame(0, 0, vec![9; 5]);
    assert_eq!(a.on_frame(len, id, payload), Ok(true));
    assert_eq!(a.assemble(), vec![9; 5]);
}
