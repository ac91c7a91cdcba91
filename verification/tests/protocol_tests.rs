use nexus_db::protocol::rest_api::ApiError;
use nexus_db::protocol::tcp::{
    data_row, read_client_message, row_description, select_complete, ClientMessage, MessageType, PgMessage,
};

#[test]
fn test_message_serialization() {
    let query = PgMessage::from_query("SELECT * FROM users".to_string());
    let bytes = query.to_bytes();
    assert_eq!(bytes[0], b'Q');
    assert!(bytes.len() > 5);
}

#[test]
fn test_error_message() {
    let error = PgMessage::error_response("Table not found");
    let bytes = error.to_bytes();
    assert_eq!(bytes[0], b'E');
}

#[test]
fn test_ready_for_query() {
    let ready = PgMessage::ready_for_query();
    let bytes = ready.to_bytes();
    assert_eq!(bytes[0], b'Z');
}

#[test]
fn frame_carries_the_length_including_itself() {
    let bytes = PgMessage::from_query("SELECT 1".to_string()).to_bytes();
    assert_eq!(bytes, {
        let mut v = vec![b'Q', 0, 0, 0, 13];
        v.extend_from_slice(b"SELECT 1");
        v.push(0);
        v
    });
    assert_eq!(PgMessage::ready_for_query().to_bytes(), vec![b'Z', 0, 0, 0, 5, b'I']);
}

#[test]
fn error_response_payload_fields() {
    let msg = PgMessage::error_response("boom");
    assert_eq!(msg.msg_type, MessageType::ErrorResponse);
    let mut expected = b"SERROR\0C00000\0Mboom".to_vec();
    expected.push(0);
    assert_eq!(msg.payload, expected);
}

#[test]
fn command_complete_and_select_tags() {
    let msg = PgMessage::command_complete("INSERT 0 1");
    assert_eq!(msg.payload, b"INSERT 0 1\0".to_vec());
    let sel = select_complete(42);
    assert_eq!(sel.msg_type, MessageType::CommandComplete);
    assert_eq!(sel.payload, b"SELECT 42\0".to_vec());
}

#[test]
fn row_description_and_data_row_layout() {
    let cols = vec!["id".to_string()];
    let desc = row_description(&cols);
    let mut expected = vec![0u8, 1];
    expected.extend_from_slice(b"id\0");
    expected.extend_from_slice(&[0, 0, 0, 0, 0, 0, 0, 0, 0, 25, 0xFF, 0xFF, 0xFF, 0xFF, 0xFF, 0xFF, 0, 0]);
    assert_eq!(desc.payload, expected);
    let row = data_row(&cols);
    let mut expected_row = vec![0u8, 1, 0, 0, 0, 8];
    expected_row.extend_from_slice(b"value_id");
    assert_eq!(row.payload, expected_row);
}

#[test]
fn client_messages_are_classified() {
    let mut q = vec![b'Q', 0, 0, 0, 12];
    q.extend_from_slice(b"SELECT 1");
    q.push(0);
    q.push(0);
    let n = q.len();
    assert_eq!(read_client_message(&q, n), ClientMessage::Query(b"SELECT 1".to_vec()));
    assert_eq!(read_client_message(&[b'X', 0, 0, 0, 4, 0], 6), ClientMessage::Terminate);
    assert_eq!(read_client_message(&[b'P', 0, 0, 0, 4, 0], 6), ClientMessage::Unknown(b'P'));
    assert_eq!(read_client_message(&[b'Q', 0, 0, 0, 4], 5), ClientMessage::Short);
}

#[test]
fn api_error_keeps_its_message() {
    let e = ApiError::new("not found".to_string());
    assert_eq!(e.message(), "not found");
}
