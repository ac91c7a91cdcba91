//! The PostgreSQL wire protocol, as far as the server speaks it: message
//! types, the framing of messages into bytes, the messages the server sends,
//! and the reading of what a client sent.

use vstd::prelude::*;
use vstd::string::StringSliceAdditionalSpecFns;
use crate::util::push_decimal;
use crate::util::decimal;

verus! {

/// The UTF-8 bytes of a text.
pub open spec fn utf8_of(s: Seq<char>) -> Seq<u8> {
    vstd::utf8::encode_utf8(s)
}

/// The message types of the protocol.
#[derive(Debug, Clone, Copy, PartialEq, Eq, Structural)]
pub enum MessageType {
    Query,
    Terminate,
    Authentication,
    ErrorResponse,
    Notice,
    ReadyForQuery,
    EmptyResponse,
    DataRow,
    RowDescription,
    CommandComplete,
}

/// The tag byte of a message type.
pub open spec fn type_byte(t: MessageType) -> u8 {
    match t {
        MessageType::Query => 81,
        MessageType::Terminate => 88,
        MessageType::Authentication => 82,
        MessageType::ErrorResponse => 69,
        MessageType::Notice => 78,
        MessageType::ReadyForQuery => 90,
        MessageType::EmptyResponse => 73,
        MessageType::DataRow => 68,
        MessageType::RowDescription => 84,
        MessageType::CommandComplete => 67,
    }
}

impl MessageType {
    /// The tag byte: `Q`, `X`, `R`, `E`, `N`, `Z`, `I`, `D`, `T` or `C`.
    pub fn as_byte(&self) -> (b: u8)
        ensures
            b == type_byte(*self),
    {
        match self {
            MessageType::Query => 81u8,
            MessageType::Terminate => 88u8,
            MessageType::Authentication => 82u8,
            MessageType::ErrorResponse => 69u8,
            MessageType::Notice => 78u8,
            MessageType::ReadyForQuery => 90u8,
            MessageType::EmptyResponse => 73u8,
            MessageType::DataRow => 68u8,
            MessageType::RowDescription => 84u8,
            MessageType::CommandComplete => 67u8,
        }
    }
}

/// The big-endian bytes of a 32-bit number.
pub open spec fn be32(x: u32) -> Seq<u8> {
    seq![(x / 0x100_0000) as u8, ((x / 0x1_0000) % 0x100) as u8, ((x / 0x100) % 0x100) as u8, (x % 0x100) as u8]
}

/// The big-endian bytes of a 16-bit number.
pub open spec fn be16(x: u16) -> Seq<u8> {
    seq![(x / 0x100) as u8, (x % 0x100) as u8]
}

/// The big-endian bytes of a 32-bit number.
fn be32_bytes(x: u32) -> (r: Vec<u8>)
    ensures
        r@ == be32(x),
{
    let mut r: Vec<u8> = Vec::new();
    r.push((x / 0x100_0000) as u8);
    r.push(((x / 0x1_0000) % 0x100) as u8);
    r.push(((x / 0x100) % 0x100) as u8);
    r.push((x % 0x100) as u8);
    assert(r@ =~= be32(x));
    r
}

/// The big-endian bytes of a 16-bit number.
fn be16_bytes(x: u16) -> (r: Vec<u8>)
    ensures
        r@ == be16(x),
{
    let mut r: Vec<u8> = Vec::new();
    r.push((x / 0x100) as u8);
    r.push((x % 0x100) as u8);
    assert(r@ =~= be16(x));
    r
}

/// Appends bytes.
fn push_bytes(v: &mut Vec<u8>, s: &[u8])
    ensures
        final(v)@ == old(v)@ + s@,
{
    v.extend_from_slice(s);
    assert(v@ =~= old(v)@ + s@);
}

/// A message: its type and payload.
#[derive(Debug, Clone)]
pub struct PgMessage {
    pub msg_type: MessageType,
    pub payload: Vec<u8>,
}

/// The bytes of a message on the wire: the tag byte, the big-endian length of
/// the payload plus the four length bytes (truncated to 32 bits), and the
/// payload.
pub open spec fn frame(t: MessageType, payload: Seq<u8>) -> Seq<u8> {
    seq![type_byte(t)] + be32((payload.len() + 4) as u32) + payload
}

/// The payload of an error response carrying `message`.
pub open spec fn error_payload(message: Seq<u8>) -> Seq<u8> {
    seq![83u8] + "ERROR"@.map_values(|c: char| c as u8) + seq![0u8, 67u8] + "00000"@.map_values(|c: char| c as u8)
        + seq![0u8, 77u8] + message + seq![0u8]
}

/// The payload of the authentication request: `R`, the MD5 method (3) and a
/// zero salt.
pub open spec fn startup_payload() -> Seq<u8> {
    seq![82u8, 0u8, 0u8, 0u8, 3u8, 0u8, 0u8, 0u8, 0u8]
}

impl PgMessage {
    /// A message of the given type and payload.
    pub fn new(msg_type: MessageType, payload: Vec<u8>) -> (m: Self)
        ensures
            m.msg_type == msg_type,
            m.payload == payload,
    {
        PgMessage { msg_type, payload }
    }

    /// The message's bytes on the wire.
    pub fn to_bytes(&self) -> (r: Vec<u8>)
        requires
            self.payload@.len() + 4 <= usize::MAX,
        ensures
            r@ == frame(self.msg_type, self.payload@),
    {
        let mut result: Vec<u8> = Vec::new();
        result.push(self.msg_type.as_byte());
        let len = (self.payload.len() + 4) as u32;
        let len_bytes = be32_bytes(len);
        push_bytes(&mut result, len_bytes.as_slice());
        push_bytes(&mut result, self.payload.as_slice());
        assert(result@ =~= frame(self.msg_type, self.payload@));
        result
    }

    /// A query message: the text's bytes and a zero terminator.
    pub fn from_query(query: String) -> (m: Self)
        ensures
            m.msg_type == MessageType::Query,
            m.payload@ == utf8_of(query@).push(0),
    {
        let mut payload: Vec<u8> = Vec::new();
        push_bytes(&mut payload, query.as_str().as_bytes());
        payload.push(0);
        PgMessage::new(MessageType::Query, payload)
    }

    /// An error response: severity `ERROR`, code `00000` and the message.
    pub fn error_response(message: &str) -> (m: Self)
        ensures
            m.msg_type == MessageType::ErrorResponse,
            m.payload@ == error_payload(message.spec_bytes()),
    {
        let mut payload: Vec<u8> = Vec::new();
        payload.push(83u8);
        payload.push(69u8);
        payload.push(82u8);
        payload.push(82u8);
        payload.push(79u8);
        payload.push(82u8);
        payload.push(0);
        payload.push(67u8);
        payload.push(48u8);
        payload.push(48u8);
        payload.push(48u8);
        payload.push(48u8);
        payload.push(48u8);
        payload.push(0);
        payload.push(77u8);
        push_bytes(&mut payload, message.as_bytes());
        payload.push(0);
        proof {
            reveal_strlit("ERROR");
            reveal_strlit("00000");
            assert(payload@ =~= error_payload(message.spec_bytes()));
        }
        PgMessage::new(MessageType::ErrorResponse, payload)
    }

    /// A command-complete message: the command tag and a zero terminator.
    pub fn command_complete(command: &str) -> (m: Self)
        ensures
            m.msg_type == MessageType::CommandComplete,
            m.payload@ == command.spec_bytes().push(0),
    {
        let mut payload: Vec<u8> = Vec::new();
        push_bytes(&mut payload, command.as_bytes());
        payload.push(0);
        PgMessage::new(MessageType::CommandComplete, payload)
    }

    /// The ready-for-query message, in the idle state (`I`).
    pub fn ready_for_query() -> (m: Self)
        ensures
            m.msg_type == MessageType::ReadyForQuery,
            m.payload@ == seq![73u8],
    {
        let mut payload: Vec<u8> = Vec::new();
        payload.push(73u8);
        assert(payload@ =~= seq![73u8]);
        PgMessage::new(MessageType::ReadyForQuery, payload)
    }

    /// The authentication request sent when a client connects.
    pub fn startup_message() -> (m: Self)
        ensures
            m.msg_type == MessageType::Authentication,
            m.payload@ == startup_payload(),
    {
        let mut payload: Vec<u8> = Vec::new();
        payload.push(82u8);
        let method = be32_bytes(3);
        push_bytes(&mut payload, method.as_slice());
        payload.push(0);
        payload.push(0);
        payload.push(0);
        payload.push(0);
        assert(payload@ =~= startup_payload());
        PgMessage::new(MessageType::Authentication, payload)
    }
}

/// The description of one text column: its name, a zero, table OID 0,
/// column index 0, type OID 25 (text), type length -1, type modifier -1 and
/// format code 0.
pub open spec fn column_description(name: Seq<u8>) -> Seq<u8> {
    name + seq![0u8] + be32(0) + be16(0) + be32(25) + seq![0xFFu8, 0xFFu8] + seq![0xFFu8, 0xFFu8, 0xFFu8, 0xFFu8]
        + be16(0)
}

/// The descriptions of some columns, one after another.
pub open spec fn column_descriptions(columns: Seq<Seq<u8>>) -> Seq<u8>
    decreases columns.len(),
{
    if columns.len() == 0 {
        Seq::empty()
    } else {
        column_descriptions(columns.drop_last()) + column_description(columns.last())
    }
}

/// The bytes of `value_`.
pub open spec fn value_prefix() -> Seq<u8> {
    seq![118u8, 97u8, 108u8, 117u8, 101u8, 95u8]
}

/// The cell of a data row for a column: the length of `value_<name>` and
/// those bytes.
pub open spec fn column_cell(name: Seq<u8>) -> Seq<u8> {
    let v = value_prefix() + name;
    be32(v.len() as u32) + v
}

/// The cells of some columns, one after another.
pub open spec fn column_cells(columns: Seq<Seq<u8>>) -> Seq<u8>
    decreases columns.len(),
{
    if columns.len() == 0 {
        Seq::empty()
    } else {
        column_cells(columns.drop_last()) + column_cell(columns.last())
    }
}

/// The bytes of the column names.
pub open spec fn name_bytes(columns: Seq<String>) -> Seq<Seq<u8>> {
    columns.map_values(|c: String| utf8_of(c@))
}

/// The row description message for result columns: the column count (16
/// bits, truncated) and the description of each column.
pub fn row_description(columns: &Vec<String>) -> (m: PgMessage)
    ensures
        m.msg_type == MessageType::RowDescription,
        m.payload@ == be16(columns@.len() as u16) + column_descriptions(name_bytes(columns@)),
{
    let mut row_desc: Vec<u8> = Vec::new();
    let count = be16_bytes(columns.len() as u16);
    push_bytes(&mut row_desc, count.as_slice());
    let ghost head = row_desc@;
    let mut i: usize = 0;
    while i < columns.len()
        invariant
            i <= columns@.len(),
            row_desc@ == head + column_descriptions(name_bytes(columns@).subrange(0, i as int)),
        decreases columns@.len() - i,
    {
        let ghost before = row_desc@;
        push_bytes(&mut row_desc, columns[i].as_str().as_bytes());
        row_desc.push(0);
        let zero32 = be32_bytes(0);
        push_bytes(&mut row_desc, zero32.as_slice());
        let zero16 = be16_bytes(0);
        push_bytes(&mut row_desc, zero16.as_slice());
        let text_oid = be32_bytes(25);
        push_bytes(&mut row_desc, text_oid.as_slice());
        row_desc.push(0xFF);
        row_desc.push(0xFF);
        row_desc.push(0xFF);
        row_desc.push(0xFF);
        row_desc.push(0xFF);
        row_desc.push(0xFF);
        let format = be16_bytes(0);
        push_bytes(&mut row_desc, format.as_slice());
        proof {
            let names = name_bytes(columns@);
            assert(names.subrange(0, i + 1).drop_last() =~= names.subrange(0, i as int));
            assert(names[i as int] == utf8_of(columns@[i as int]@));
            assert(row_desc@ =~= before + column_description(names[i as int]));
        }
        i += 1;
    }
    proof {
        assert(name_bytes(columns@).subrange(0, i as int) =~= name_bytes(columns@));
    }
    PgMessage::new(MessageType::RowDescription, row_desc)
}

/// A data row for result columns: the column count (16 bits, truncated) and
/// a cell `value_<name>` per column.
pub fn data_row(columns: &Vec<String>) -> (m: PgMessage)
    requires
        forall|i: int| 0 <= i < columns@.len() ==> utf8_of((#[trigger] columns@[i])@).len() + 6 <= u32::MAX,
    ensures
        m.msg_type == MessageType::DataRow,
        m.payload@ == be16(columns@.len() as u16) + column_cells(name_bytes(columns@)),
{
    let mut data: Vec<u8> = Vec::new();
    let count = be16_bytes(columns.len() as u16);
    push_bytes(&mut data, count.as_slice());
    let ghost head = data@;
    let mut i: usize = 0;
    while i < columns.len()
        invariant
            i <= columns@.len(),
            forall|k: int| 0 <= k < columns@.len() ==> utf8_of((#[trigger] columns@[k])@).len() + 6 <= u32::MAX,
            data@ == head + column_cells(name_bytes(columns@).subrange(0, i as int)),
        decreases columns@.len() - i,
    {
        let ghost before = data@;
        let mut value: Vec<u8> = Vec::new();
        value.push(118u8);
        value.push(97u8);
        value.push(108u8);
        value.push(117u8);
        value.push(101u8);
        value.push(95u8);
        let name = columns[i].as_str().as_bytes();
        push_bytes(&mut value, name);
        let len = value.len() as u32;
        let len_bytes = be32_bytes(len);
        push_bytes(&mut data, len_bytes.as_slice());
        push_bytes(&mut data, value.as_slice());
        proof {
            let names = name_bytes(columns@);
            assert(names.subrange(0, i + 1).drop_last() =~= names.subrange(0, i as int));
            assert(names[i as int] == utf8_of(columns@[i as int]@));
            assert(value@ =~= value_prefix() + names[i as int]);
            assert(data@ =~= before + column_cell(names[i as int]));
        }
        i += 1;
    }
    proof {
        assert(name_bytes(columns@).subrange(0, i as int) =~= name_bytes(columns@));
    }
    PgMessage::new(MessageType::DataRow, data)
}

/// The command tag of a SELECT that returned `row_count` rows.
pub open spec fn select_tag(row_count: u64) -> Seq<char> {
    "SELECT "@ + decimal(row_count as nat)
}

/// The command-complete message of a SELECT that returned `row_count` rows.
pub fn select_complete(row_count: u64) -> (m: PgMessage)
    ensures
        m.msg_type == MessageType::CommandComplete,
        m.payload@ == utf8_of(select_tag(row_count)).push(0),
{
    let mut command = String::new();
    command.append("SELECT ");
    push_decimal(&mut command, row_count);
    proof {
        reveal_strlit("SELECT ");
        assert(command@ =~= select_tag(row_count));
    }
    PgMessage::command_complete(command.as_str())
}

/// What a client sent, as the server reads it.
#[derive(Debug, Clone, PartialEq, Eq)]
pub enum ClientMessage {
    /// Five bytes or fewer: nothing to act on.
    Short,
    /// A query (`Q`), with its text's bytes, trailing zero bytes removed.
    Query(Vec<u8>),
    /// The client ends the session (`X`).
    Terminate,
    /// Another message type.
    Unknown(u8),
}

/// The bytes of `s` without its trailing zero bytes.
pub open spec fn trim_zeros(s: Seq<u8>) -> Seq<u8>
    decreases s.len(),
{
    if s.len() > 0 && s.last() == 0 {
        trim_zeros(s.drop_last())
    } else {
        s
    }
}

/// Reads the first `n` bytes that a client sent: a message longer than five
/// bytes is its tag byte, four length bytes and a payload.
pub fn read_client_message(buffer: &[u8], n: usize) -> (m: ClientMessage)
    requires
        n <= buffer@.len(),
    ensures
        n <= 5 ==> m == ClientMessage::Short,
        n > 5 && buffer@[0] == 81 ==> (m matches ClientMessage::Query(q) && q@ == trim_zeros(
            buffer@.subrange(5, n as int),
        )),
        n > 5 && buffer@[0] == 88 ==> m == ClientMessage::Terminate,
        n > 5 && buffer@[0] != 81 && buffer@[0] != 88 ==> m == ClientMessage::Unknown(buffer@[0]),
{
    if n <= 5 {
        return ClientMessage::Short;
    }
    let tag = buffer[0];
    if tag == 81u8 {
        let mut end: usize = n;
        proof {
            assert(trim_zeros(buffer@.subrange(5, n as int)) == trim_zeros(buffer@.subrange(5, end as int)));
        }
        while end > 5 && buffer[end - 1] == 0
            invariant
                5 <= end <= n <= buffer@.len(),
                trim_zeros(buffer@.subrange(5, n as int)) == trim_zeros(buffer@.subrange(5, end as int)),
            decreases end,
        {
            proof {
                assert(buffer@.subrange(5, end as int).drop_last() =~= buffer@.subrange(5, end - 1));
            }
            end -= 1;
        }
        let mut q: Vec<u8> = Vec::new();
        let mut k: usize = 5;
        while k < end
            invariant
                5 <= k <= end <= n <= buffer@.len(),
                q@ == buffer@.subrange(5, k as int),
            decreases end - k,
        {
            q.push(buffer[k]);
            proof {
                assert(q@ =~= buffer@.subrange(5, k + 1));
            }
            k += 1;
        }
        proof {
            let s = buffer@.subrange(5, end as int);
            if s.len() > 0 {
                assert(s.last() == buffer@[end - 1]);
            }
            assert(trim_zeros(s) == s);
        }
        ClientMessage::Query(q)
    } else if tag == 88u8 {
        ClientMessage::Terminate
    } else {
        ClientMessage::Unknown(tag)
    }
}


/// Removing trailing zeros from bytes followed by one zero gives the bytes
/// back when they do not end in a zero themselves.
proof fn lemma_trim_one_zero(q: Seq<u8>)
    requires
        q.len() == 0 || q.last() != 0,
    ensures
        trim_zeros(q.push(0)) == q,
{
    assert(q.push(0).drop_last() =~= q);
    assert(trim_zeros(q) == q);
}

/// A query framed for the wire is read back as a query with the same bytes:
/// the frame of `from_query`'s payload starts with `Q`, is longer than five
/// bytes, and after its tag and length its bytes without trailing zeros are
/// the query's, when those do not end in a zero byte.
pub proof fn lemma_query_frame_read_back(query: Seq<char>)
    requires
        utf8_of(query).len() == 0 || utf8_of(query).last() != 0,
    ensures
        frame(MessageType::Query, utf8_of(query).push(0)).len() > 5,
        frame(MessageType::Query, utf8_of(query).push(0))[0] == 81,
        trim_zeros(
            frame(MessageType::Query, utf8_of(query).push(0)).subrange(
                5,
                frame(MessageType::Query, utf8_of(query).push(0)).len() as int,
            ),
        ) == utf8_of(query),
{
    let q = utf8_of(query);
    let f = frame(MessageType::Query, q.push(0));
    assert(f.subrange(5, f.len() as int) =~= q.push(0));
    lemma_trim_one_zero(q);
}

} // verus!
