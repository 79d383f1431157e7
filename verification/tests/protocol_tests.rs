use dbfs::protocol::{
    check_frame_len, DbfsOpType, DbfsRequest, DbfsResponse, FrameError, ProtocolError,
    MAX_FRAME_BYTES,
};

#[test]
fn test_request_serialize() {
    let req = DbfsRequest {
        tx_id: 12345,
        op_type: DbfsOpType::CreateFile,
        path: String::from("/test.txt"),
        offset: 0,
        data: Vec::new(),
    };

    let bytes = req.serialize();
    let req2 = DbfsRequest::deserialize(&bytes).unwrap();

    assert_eq!(req2.tx_id, 12345);
    assert_eq!(req2.op_type, DbfsOpType::CreateFile);
    assert_eq!(req2.path, "/test.txt");
}

#[test]
fn test_response_serialize() {
    let resp = DbfsResponse {
        tx_id: 12345,
        status: 0,
        lsn: 67890,
        data: b"test data".to_vec(),
    };

    let bytes = resp.serialize();
    let resp2 = DbfsResponse::deserialize(&bytes).unwrap();

    assert_eq!(resp2.tx_id, 12345);
    assert_eq!(resp2.status, 0);
    assert_eq!(resp2.lsn, 67890);
    assert_eq!(resp2.data, b"test data");
}

#[test]
fn request_round_trip_with_payload() {
    let req = DbfsRequest {
        tx_id: 7,
        op_type: DbfsOpType::WriteFile,
        path: String::from("/big"),
        offset: 4096,
        data: vec![0xab; 37],
    };
    let req2 = DbfsRequest::deserialize(&req.serialize()).unwrap();
    assert_eq!(req2.tx_id, 7);
    assert_eq!(req2.op_type, DbfsOpType::WriteFile);
    assert_eq!(req2.path, "/big");
    assert_eq!(req2.offset, 4096);
    assert_eq!(req2.data, vec![0xab; 37]);
}

#[test]
fn response_round_trip_negative_status() {
    let resp = DbfsResponse { tx_id: 1, status: -17, lsn: 0, data: Vec::new() };
    let resp2 = DbfsResponse::deserialize(&resp.serialize()).unwrap();
    assert_eq!(resp2.status, -17);
}

#[test]
fn zero_length_frame_is_short() {
    assert_eq!(check_frame_len(0), Err(FrameError::ShortFrame));
}

#[test]
fn oversized_frame_is_too_large() {
    assert_eq!(check_frame_len(MAX_FRAME_BYTES + 1), Err(FrameError::FrameTooLarge));
    assert_eq!(check_frame_len(10 * 1024 * 1024 + 1), Err(FrameError::FrameTooLarge));
}

#[test]
fn frame_within_limit_passes() {
    assert_eq!(check_frame_len(1), Ok(1));
    assert_eq!(check_frame_len(MAX_FRAME_BYTES), Ok(MAX_FRAME_BYTES as usize));
}

#[test]
fn short_request_body_is_invalid_length() {
    assert_eq!(
        DbfsRequest::deserialize(&[0u8; 18]).err(),
        Some(ProtocolError::InvalidLength)
    );
}

#[test]
fn unknown_op_tag_is_invalid() {
    let mut bytes = vec![0u8; 23];
    bytes[8] = 9;
    assert_eq!(DbfsRequest::deserialize(&bytes).err(), Some(ProtocolError::InvalidOpType));
}

#[test]
fn non_utf8_path_is_invalid() {
    // tx_id(8) | op=3 | path_len=1 | 0xff | offset(8) | data_len(4)
    let mut bytes = Vec::new();
    bytes.extend_from_slice(&[0u8; 8]);
    bytes.push(3);
    bytes.extend_from_slice(&[0, 1]);
    bytes.push(0xff);
    bytes.extend_from_slice(&[0u8; 8]);
    bytes.extend_from_slice(&[0u8; 4]);
    assert_eq!(DbfsRequest::deserialize(&bytes).err(), Some(ProtocolError::InvalidUtf8));
}

#[test]
fn op_tags_round_trip() {
    for tag in 1u8..=8u8 {
        let op = DbfsOpType::from_u8(tag).unwrap();
        assert_eq!(op.to_u8(), tag);
    }
    assert!(DbfsOpType::from_u8(0).is_none());
    assert!(DbfsOpType::from_u8(9).is_none());
}
