use twenty48::Board;

#[test]
fn serialize_writes_compact_json() {
    let board = Board::new(2, Some(vec![0, 1, 2, 3]), 12);
    let out = board.serialize();
    let text = String::from_utf8(out).unwrap();
    assert_eq!(text, "{\"size\":2,\"tiles\":[[0,1],[2,3]],\"score\":12}");
}

#[test]
fn round_trip_gives_back_the_board() {
    let board = Board::new(
        4,
        Some(vec![
            0, 0, 0, 1,
            0, 0, 1, 2,
            0, 0, 0, 3,
            0, 0, 0, 0,
        ]),
        12,
    );
    let bytes = board.serialize();
    let back = Board::deserialize(&bytes).unwrap();
    assert_eq!(back.size, board.size);
    assert_eq!(back.tiles, board.tiles);
    assert_eq!(back.score, board.score);
}

#[test]
fn round_trip_keeps_a_zero_score_board() {
    let board = Board::new(2, None, 0);
    let bytes = board.serialize();
    let back = Board::deserialize(&bytes).unwrap();
    assert_eq!(back.size, 2);
    assert_eq!(back.tiles, vec![0, 0, 0, 0]);
    assert_eq!(back.score, 0);
}

#[test]
fn deserialize_rejects_malformed_documents() {
    let reject = |text: &str| {
        let bytes: Vec<u8> = text.as_bytes().to_vec();
        assert!(Board::deserialize(&bytes).is_none(), "accepted: {}", text);
    };
    reject("");
    reject("not json at all");
    reject("{\"size\":2,\"tiles\":[[0,1],[2,3]],\"score\":12");
    reject("{\"size\":2,\"tiles\":[[0,1],[2,3]],\"score\":12}trailing");
    // spaces make it a different document than the writer produces
    reject("{\"size\": 2,\"tiles\":[[0,1],[2,3]],\"score\":12}");
    // a leading zero is not the canonical spelling
    reject("{\"size\":02,\"tiles\":[[0,1],[2,3]],\"score\":12}");
    // one board row is short
    reject("{\"size\":2,\"tiles\":[[0,1],[2]],\"score\":12}");
    // a one-cell board is below the minimum size
    reject("{\"size\":1,\"tiles\":[[0]],\"score\":0}");
    // an exponent beyond the tile type cannot be read back
    reject("{\"size\":2,\"tiles\":[[0,1],[2,3000000000]],\"score\":12}");
}

#[test]
fn round_trip_keeps_exponents_beyond_the_engine_range() {
    // the snapshot format covers every board the writer accepts, even ones
    // too large for a shift
    let board = Board::new(2, Some(vec![0, 1, 2, 40]), 5);
    let bytes = board.serialize();
    let back = Board::deserialize(&bytes).unwrap();
    assert_eq!(back.tiles, vec![0, 1, 2, 40]);
}

#[test]
fn deserialize_accepts_a_written_document() {
    let text = "{\"size\":2,\"tiles\":[[0,1],[2,3]],\"score\":12}";
    let bytes: Vec<u8> = text.as_bytes().to_vec();
    let board = Board::deserialize(&bytes).unwrap();
    assert_eq!(board.size, 2);
    assert_eq!(board.tiles, vec![0, 1, 2, 3]);
    assert_eq!(board.score, 12);
}
