//! The messages between the index server, its clients and their peers, and
//! the length-prefixed frames that carry them. Times are nanoseconds since
//! the Unix epoch.

use vstd::prelude::*;

verus! {

/// The kind of a message, carried in its envelope.
#[derive(Debug, Clone, Copy, PartialEq, Eq, Structural)]
pub enum MessageType {
    RegisterClient,
    ClientRegistered,
    PublishVersion,
    VersionPublished,
    RequestVersionGraph,
    VersionGraphResponse,
    RequestBlock,
    BlockResponse,
    RequestPeers,
    PeerList,
    ConflictAlert,
    SyncStatus,
    Heartbeat,
    PullMissingBlocks,
    PullMissingBlocksResponse,
}

/// The code of each message kind, 1 to 15 in declaration order.
pub open spec fn message_code(t: MessageType) -> u8 {
    match t {
        MessageType::RegisterClient => 1,
        MessageType::ClientRegistered => 2,
        MessageType::PublishVersion => 3,
        MessageType::VersionPublished => 4,
        MessageType::RequestVersionGraph => 5,
        MessageType::VersionGraphResponse => 6,
        MessageType::RequestBlock => 7,
        MessageType::BlockResponse => 8,
        MessageType::RequestPeers => 9,
        MessageType::PeerList => 10,
        MessageType::ConflictAlert => 11,
        MessageType::SyncStatus => 12,
        MessageType::Heartbeat => 13,
        MessageType::PullMissingBlocks => 14,
        MessageType::PullMissingBlocksResponse => 15,
    }
}

impl MessageType {
    /// The code of this message kind.
    pub fn code(&self) -> (c: u8)
        ensures
            c == message_code(*self),
    {
        match self {
            MessageType::RegisterClient => 1,
            MessageType::ClientRegistered => 2,
            MessageType::PublishVersion => 3,
            MessageType::VersionPublished => 4,
            MessageType::RequestVersionGraph => 5,
            MessageType::VersionGraphResponse => 6,
            MessageType::RequestBlock => 7,
            MessageType::BlockResponse => 8,
            MessageType::RequestPeers => 9,
            MessageType::PeerList => 10,
            MessageType::ConflictAlert => 11,
            MessageType::SyncStatus => 12,
            MessageType::Heartbeat => 13,
            MessageType::PullMissingBlocks => 14,
            MessageType::PullMissingBlocksResponse => 15,
        }
    }
}

/// A message: its kind and its encoded body.
#[derive(Debug)]
pub struct Envelope {
    pub msg_type: MessageType,
    pub payload: Vec<u8>,
}

/// A client introduces itself to the server.
#[derive(Debug)]
pub struct RegisterClient {
    pub client_id: String,
    pub hostname: String,
    pub listen_port: u16,
    pub watched_path: String,
}

/// The server's answer to a registration.
#[derive(Debug)]
pub struct ClientRegistered {
    pub client_id: String,
    pub assigned_id: u64,
    pub server_version: String,
}

/// A client announces a version of a file.
#[derive(Debug)]
pub struct PublishVersion {
    pub client_id: String,
    pub file_path: String,
    pub version_number: i64,
    pub content_hash: String,
    pub block_hashes: Vec<String>,
    pub timestamp: i64,
    pub file_size: i64,
    pub parent_hash: Option<String>,
}

/// The server's answer to a published version.
#[derive(Debug)]
pub struct VersionPublished {
    pub success: bool,
    pub conflict_detected: bool,
    pub conflicting_client: Option<String>,
}

/// A client asks for the version graph of a file.
#[derive(Debug)]
pub struct RequestVersionGraph {
    pub file_path: String,
}

/// One node of a version graph as the server sends it.
#[derive(Debug)]
pub struct RemoteVersionNode {
    pub client_id: String,
    pub version_number: i64,
    pub content_hash: String,
    pub timestamp: i64,
    pub file_size: i64,
    pub parent_hash: Option<String>,
    pub block_hashes: Vec<String>,
}

/// The version graph of a file as the server sends it.
#[derive(Debug)]
pub struct VersionGraphResponse {
    pub file_path: String,
    pub nodes: Vec<RemoteVersionNode>,
    pub has_conflict: bool,
    pub latest_client_id: String,
    pub latest_timestamp: i64,
}

/// A peer asks for a block by hash.
#[derive(Debug)]
pub struct RequestBlock {
    pub block_hash: String,
}

/// A block, or word that it was not found.
#[derive(Debug)]
pub struct BlockResponse {
    pub block_hash: String,
    pub data: Vec<u8>,
    pub found: bool,
}

/// A client asks which peers hold a file.
#[derive(Debug)]
pub struct RequestPeers {
    pub file_path: String,
}

/// A peer as the server describes it.
#[derive(Debug)]
pub struct PeerInfo {
    pub client_id: String,
    pub hostname: String,
    pub address: String,
    pub listen_port: u16,
    pub version_count: i64,
}

/// The peers that hold a file.
#[derive(Debug)]
pub struct PeerList {
    pub peers: Vec<PeerInfo>,
}

/// The server tells a client of a conflict on a file.
#[derive(Debug)]
pub struct ConflictAlert {
    pub file_path: String,
    pub local_version: i64,
    pub local_hash: String,
    pub local_timestamp: i64,
    pub remote_client_id: String,
    pub remote_version: i64,
    pub remote_hash: String,
    pub remote_timestamp: i64,
}

/// A client tells the server it is alive.
#[derive(Debug)]
pub struct Heartbeat {
    pub client_id: String,
    pub timestamp: i64,
}

/// A client asks for the blocks it lacks.
#[derive(Debug)]
pub struct PullMissingBlocks {
    pub client_id: String,
    pub missing_hashes: Vec<String>,
}

/// The server's answer to a pull: the blocks it can speak for, and how many
/// of the asked hashes it cannot.
#[derive(Debug)]
pub struct PullMissingBlocksResponse {
    pub blocks: Vec<BlockResponse>,
    pub remaining: usize,
}

// ---------------------------------------------------------------------------
// Frames
// ---------------------------------------------------------------------------

/// The largest payload a frame may announce: 256 MiB.
pub const MAX_FRAME_LEN: u32 = 268435456;

/// The four big-endian bytes of `n`.
pub open spec fn be_u32(n: u32) -> Seq<u8> {
    seq![
        (n / 16777216) as u8,
        ((n / 65536) % 256) as u8,
        ((n / 256) % 256) as u8,
        (n % 256) as u8,
    ]
}

/// The number that four big-endian bytes stand for.
pub open spec fn from_be_u32(b: Seq<u8>) -> int {
    b[0] * 16777216 + b[1] * 65536 + b[2] * 256 + b[3]
}

/// A frame: the payload length as four big-endian bytes (the length taken
/// modulo 2^32, as `as u32` does), then the payload.
pub open spec fn frame_spec(data: Seq<u8>) -> Seq<u8> {
    be_u32((data.len() % 0x1_0000_0000) as u32) + data
}

/// Why a frame was refused.
#[derive(Debug, Clone, Copy, PartialEq, Eq, Structural)]
pub enum FrameError {
    /// The header announces more than `MAX_FRAME_LEN` bytes.
    TooLarge(u32),
}

fn be_bytes(n: u32) -> (b: Vec<u8>)
    ensures
        b@ == be_u32(n),
{
    let b = vec![
        (n / 16777216) as u8,
        ((n / 65536) % 256) as u8,
        ((n / 256) % 256) as u8,
        (n % 256) as u8,
    ];
    assert(b@ =~= be_u32(n));
    b
}

/// Frames `data` for the wire.
pub fn encode_frame(data: &[u8]) -> (f: Vec<u8>)
    ensures
        f@ == frame_spec(data@),
{
    let len: u32 = (data.len() as u64 % 0x1_0000_0000u64) as u32;
    let mut f = be_bytes(len);
    let mut i: usize = 0;
    while i < data.len()
        invariant
            i <= data@.len(),
            f@ == be_u32(len) + data@.take(i as int),
        decreases data@.len() - i,
    {
        f.push(data[i]);
        i += 1;
        assert(f@ =~= be_u32(len) + data@.take(i as int));
    }
    assert(data@.take(data@.len() as int) == data@);
    f
}

/// The payload length that a frame header announces, refused above
/// `MAX_FRAME_LEN`.
pub fn parse_frame_header(header: &[u8; 4]) -> (r: Result<u32, FrameError>)
    ensures
        from_be_u32(header@) <= MAX_FRAME_LEN ==> r == Ok::<u32, FrameError>(
            from_be_u32(header@) as u32,
        ),
        from_be_u32(header@) > MAX_FRAME_LEN ==> r == Err::<u32, FrameError>(
            FrameError::TooLarge(from_be_u32(header@) as u32),
        ),
{
    let len: u32 = (header[0] as u32) * 16777216 + (header[1] as u32) * 65536 + (header[2] as u32)
        * 256 + (header[3] as u32);
    if len > MAX_FRAME_LEN {
        Err(FrameError::TooLarge(len))
    } else {
        Ok(len)
    }
}


/// Distinct message kinds have distinct codes, so a code names one kind.
pub proof fn lemma_message_code_injective(a: MessageType, b: MessageType)
    ensures
        message_code(a) == message_code(b) ==> a == b,
{
}

/// Four big-endian bytes read back as the number they were made from.
pub proof fn lemma_be_u32_round_trip(n: u32)
    ensures
        be_u32(n).len() == 4,
        from_be_u32(be_u32(n)) == n,
{
    let b = be_u32(n);
    assert(n / 16777216 < 256) by (nonlinear_arith)
        requires n <= u32::MAX;
    assert(b[0] == n / 16777216);
    assert(b[1] == (n / 65536) % 256);
    assert(b[2] == (n / 256) % 256);
    assert(b[3] == n % 256);
    assert((n / 16777216) * 16777216 + ((n / 65536) % 256) * 65536 + ((n / 256) % 256) * 256 + n % 256 == n)
        by (nonlinear_arith);
}

/// A frame of a payload of at most `MAX_FRAME_LEN` bytes is read back whole:
/// its header is accepted and announces the payload's length, and the
/// payload follows the header.
pub proof fn lemma_frame_round_trip(data: Seq<u8>)
    requires
        data.len() <= MAX_FRAME_LEN,
    ensures
        frame_spec(data).len() == data.len() + 4,
        from_be_u32(frame_spec(data).take(4)) == data.len(),
        from_be_u32(frame_spec(data).take(4)) <= MAX_FRAME_LEN,
        frame_spec(data).skip(4) == data,
{
    let n = (data.len() % 0x1_0000_0000) as u32;
    lemma_be_u32_round_trip(n);
    assert(frame_spec(data).take(4) =~= be_u32(n));
    assert(frame_spec(data).skip(4) =~= data);
}

} // verus!
