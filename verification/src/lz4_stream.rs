//! The chunks of a recording's stream: each is a kind byte, the length of
//! its payload as four little-endian bytes, and the payload; a payload of
//! kind one is compressed with LZ4, one of kind two is stored as it is.

use vstd::prelude::*;

verus! {

/// The most bytes of data that one compressed chunk holds.
pub const CHUNK_SIZE: usize = 524288;

/// The kind byte of a compressed chunk.
pub const COMPRESSED: u8 = 1;

/// The kind byte of a chunk stored as it is.
pub const UNCOMPRESSED: u8 = 2;

/// A number as four little-endian bytes.
pub open spec fn le32(n: u32) -> Seq<u8> {
    seq![(n % 0x100) as u8, (n / 0x100 % 0x100) as u8, (n / 0x1_0000 % 0x100) as u8, (n / 0x100_0000) as u8]
}

/// The number four little-endian bytes stand for.
pub open spec fn from_le32(b: Seq<u8>) -> u32 {
    (b[0] + b[1] * 0x100 + b[2] * 0x1_0000 + b[3] * 0x100_0000) as u32
}

/// The number in the first four bytes of `buf`, least significant first.
fn read_le32(buf: &[u8]) -> (n: u32)
    requires
        buf@.len() >= 4,
    ensures
        n == from_le32(buf@),
{
    buf[0] as u32 + buf[1] as u32 * 0x100 + buf[2] as u32 * 0x1_0000 + buf[3] as u32 * 0x100_0000
}

/// What `lz4_compress::decompress` makes of some bytes, where they decode.
pub uninterp spec fn lz4_decompressed(input: Seq<u8>) -> Option<Seq<u8>>;

/// `lz4_compress::compress`: the bytes compressed, which decompress to
/// the input again. Which bytes they are is left unsaid: the compressor
/// reads its input in the machine's byte order, so they may differ from one
/// machine to another.
#[verifier::external_body]
fn compress(input: &[u8]) -> (output: Vec<u8>)
    ensures
        lz4_decompressed(output@) == Some(input@),
{
    lz4_compress::compress(input)
}

/// `lz4_compress::decompress`: the bytes decompressed, or nothing where
/// they do not decode.
#[verifier::external_body]
fn decompress(input: &[u8]) -> (output: Option<Vec<u8>>)
    ensures
        match output {
            Some(o) => lz4_decompressed(input@) == Some(o@),
            None => lz4_decompressed(input@) is None,
        },
{
    match lz4_compress::decompress(input) {
        Ok(output) => Some(output),
        Err(_) => None,
    }
}

/// The length of a payload, as a chunk's header gives it.
pub fn chunk_length(header: &[u8]) -> (length: u32)
    requires
        header@.len() >= 4,
    ensures
        length == from_le32(header@),
{
    read_le32(header)
}

/// A chunk of kind `kind` with `payload`.
pub open spec fn chunk(kind: u8, payload: Seq<u8>) -> Seq<u8> {
    seq![kind] + le32(payload.len() as u32) + payload
}

fn push_chunk(out: &mut Vec<u8>, kind: u8, payload: &[u8])
    requires
        payload@.len() <= u32::MAX,
    ensures
        final(out)@ == old(out)@ + chunk(kind, payload@),
{
    let n = payload.len() as u32;
    out.push(kind);
    out.push((n % 0x100) as u8);
    out.push((n / 0x100 % 0x100) as u8);
    out.push((n / 0x1_0000 % 0x100) as u8);
    out.push((n / 0x100_0000) as u8);
    proof {
        assert(out@ =~= old(out)@ + seq![kind] + le32(payload@.len() as u32));
    }
    let ghost middle = out@;
    let mut j: usize = 0;
    while j < payload.len()
        invariant
            0 <= j <= payload@.len(),
            out@ == middle + payload@.take(j as int),
        decreases payload@.len() - j,
    {
        out.push(payload[j]);
        j = j + 1;
        proof {
            assert(out@ =~= middle + payload@.take(j as int));
        }
    }
    proof {
        assert(payload@.take(payload@.len() as int) =~= payload@);
        assert(out@ =~= old(out)@ + chunk(kind, payload@));
    }
}

/// The chunk that stores `data` as it is.
pub fn uncompressed_chunk(data: &[u8]) -> (out: Vec<u8>)
    requires
        data@.len() <= u32::MAX,
    ensures
        out@ == chunk(UNCOMPRESSED, data@),
{
    let mut out: Vec<u8> = Vec::new();
    push_chunk(&mut out, UNCOMPRESSED, data);
    proof {
        assert(out@ =~= chunk(UNCOMPRESSED, data@));
    }
    out
}

/// How many pieces of at most `CHUNK_SIZE` bytes `data` is cut into.
pub open spec fn piece_count(data: Seq<u8>) -> nat {
    ((data.len() as int + CHUNK_SIZE as int - 1) / (CHUNK_SIZE as int)) as nat
}

/// Piece `i` of `data`: `CHUNK_SIZE` bytes, the last one shorter.
pub open spec fn piece(data: Seq<u8>, i: int) -> Seq<u8> {
    let end = if (i + 1) * CHUNK_SIZE <= data.len() { (i + 1) * CHUNK_SIZE } else { data.len() as int };
    data.subrange(i * CHUNK_SIZE, end)
}

/// Compressed chunks with the given payloads, one after another.
pub open spec fn chunks_of(payloads: Seq<Seq<u8>>) -> Seq<u8>
    decreases payloads.len(),
{
    if payloads.len() == 0 {
        Seq::empty()
    } else {
        chunks_of(payloads.drop_last()) + chunk(COMPRESSED, payloads.last())
    }
}

/// `bytes` are compressed chunks, one for each piece of `data` in order,
/// whose payload decompresses to that piece.
pub open spec fn chunks_of_data(bytes: Seq<u8>, data: Seq<u8>) -> bool {
    exists|payloads: Seq<Seq<u8>>| {
        &&& payloads.len() == piece_count(data)
        &&& forall|i: int| 0 <= i < payloads.len() ==> {
            &&& #[trigger] payloads[i].len() <= u32::MAX
            &&& lz4_decompressed(payloads[i]) == Some(piece(data, i))
        }
        &&& bytes == chunks_of(payloads)
    }
}

/// The data a stream of chunks carries: each chunk's payload, decompressed
/// where the chunk is compressed, one after another; `None` where a chunk
/// is cut short, is of an unknown kind, or does not decode.
pub open spec fn stream_data(bytes: Seq<u8>) -> Option<Seq<u8>>
    decreases bytes.len(),
{
    if bytes.len() == 0 {
        Some(Seq::empty())
    } else if bytes.len() < 5 {
        None
    } else {
        let length = from_le32(bytes.subrange(1, 5)) as int;
        if 5 + length > bytes.len() {
            None
        } else {
            let payload = bytes.subrange(5, 5 + length);
            let data = if bytes[0] == COMPRESSED {
                lz4_decompressed(payload)
            } else if bytes[0] == UNCOMPRESSED {
                Some(payload)
            } else {
                None
            };
            match (data, stream_data(bytes.subrange(5 + length, bytes.len() as int))) {
                (Some(d), Some(rest)) => Some(d + rest),
                _ => None,
            }
        }
    }
}

/// Four little-endian bytes give back the number they were made of.
pub proof fn lemma_le32_round_trip(n: u32)
    ensures
        from_le32(le32(n)) == n,
{
    let b = le32(n);
    assert(b[0] == (n % 0x100) as u8);
    assert(b[1] == (n / 0x100 % 0x100) as u8);
    assert(b[2] == (n / 0x1_0000 % 0x100) as u8);
    assert(b[3] == (n / 0x100_0000) as u8);
    assert((((n % 0x100) as u8) as u32) + (((n / 0x100 % 0x100) as u8) as u32) * 0x100 + (((n / 0x1_0000 % 0x100) as u8)
        as u32) * 0x1_0000 + (((n / 0x100_0000) as u8) as u32) * 0x100_0000 == n) by (bit_vector);
}

/// A chunk followed by more bytes is read as the chunk's data, then the
/// data of the bytes after it.
proof fn lemma_stream_chunk(payload: Seq<u8>, rest: Seq<u8>)
    requires
        payload.len() <= u32::MAX,
    ensures
        stream_data(chunk(COMPRESSED, payload) + rest) == (match (lz4_decompressed(payload), stream_data(rest)) {
            (Some(d), Some(r)) => Some(d + r),
            _ => None,
        }),
{
    let bytes = chunk(COMPRESSED, payload) + rest;
    lemma_le32_round_trip(payload.len() as u32);
    assert(bytes.subrange(1, 5) =~= le32(payload.len() as u32));
    assert(bytes.subrange(5, 5 + payload.len() as int) =~= payload);
    assert(bytes.subrange(5 + payload.len() as int, bytes.len() as int) =~= rest);
}

/// Chunks built one after another, read from the first.
proof fn lemma_chunks_front(payloads: Seq<Seq<u8>>)
    requires
        payloads.len() > 0,
    ensures
        chunks_of(payloads) == chunk(COMPRESSED, payloads[0]) + chunks_of(payloads.drop_first()),
    decreases payloads.len(),
{
    if payloads.len() > 1 {
        lemma_chunks_front(payloads.drop_last());
        assert(payloads.drop_last().drop_first() =~= payloads.drop_first().drop_last());
        assert(payloads.drop_first().last() == payloads.last());
        assert(chunks_of(payloads) =~= chunk(COMPRESSED, payloads[0]) + chunks_of(payloads.drop_first()));
    } else {
        assert(payloads.drop_first() =~= Seq::<Seq<u8>>::empty());
        assert(payloads.drop_last() =~= Seq::<Seq<u8>>::empty());
        assert(chunks_of(payloads) =~= chunk(COMPRESSED, payloads[0]) + chunks_of(payloads.drop_first()));
    }
}

/// Where the data starts within piece `j`.
pub open spec fn piece_start(data: Seq<u8>, j: int) -> int {
    if j * CHUNK_SIZE <= data.len() { j * CHUNK_SIZE } else { data.len() as int }
}

/// The chunks of the pieces from the `j`th on carry the data from where
/// that piece starts.
proof fn lemma_pieces_read(data: Seq<u8>, payloads: Seq<Seq<u8>>, j: int)
    requires
        payloads.len() == piece_count(data),
        forall|i: int| 0 <= i < payloads.len() ==> {
            &&& #[trigger] payloads[i].len() <= u32::MAX
            &&& lz4_decompressed(payloads[i]) == Some(piece(data, i))
        },
        0 <= j <= payloads.len(),
    ensures
        stream_data(chunks_of(payloads.subrange(j, payloads.len() as int))) == Some(
            data.subrange(piece_start(data, j), data.len() as int),
        ),
    decreases payloads.len() - j,
{
    let n = payloads.len() as int;
    let len = data.len() as int;
    let c = CHUNK_SIZE as int;
    assert(n * c >= len && (n == 0 || (n - 1) * c < len)) by (nonlinear_arith)
        requires
            n == (len + c - 1) / c,
            c == 524288,
            len >= 0,
    ;
    if j == n {
        assert(payloads.subrange(j, n) =~= Seq::<Seq<u8>>::empty());
        assert(piece_start(data, j) == len) by (nonlinear_arith)
            requires
                j == n,
                n * c >= len,
                piece_start(data, j) == (if j * c <= len { j * c } else { len }),
        ;
        assert(data.subrange(len, len) =~= Seq::<u8>::empty());
    } else {
        lemma_pieces_read(data, payloads, j + 1);
        let tail = payloads.subrange(j, n);
        lemma_chunks_front(tail);
        assert(tail.drop_first() =~= payloads.subrange(j + 1, n));
        assert(tail[0] == payloads[j]);
        lemma_stream_chunk(payloads[j], chunks_of(payloads.subrange(j + 1, n)));
        assert(j * c < len) by (nonlinear_arith)
            requires
                j < n,
                n == 0 || (n - 1) * c < len,
                c > 0,
                j >= 0,
        ;
        assert(piece(data, j) + data.subrange(piece_start(data, j + 1), len) =~= data.subrange(
            piece_start(data, j),
            len,
        ));
    }
}

/// The chunks made of some data carry that data.
pub proof fn lemma_chunks_round_trip(bytes: Seq<u8>, data: Seq<u8>)
    requires
        chunks_of_data(bytes, data),
    ensures
        stream_data(bytes) == Some(data),
{
    let payloads = choose|payloads: Seq<Seq<u8>>| {
        &&& payloads.len() == piece_count(data)
        &&& forall|i: int| 0 <= i < payloads.len() ==> {
            &&& #[trigger] payloads[i].len() <= u32::MAX
            &&& lz4_decompressed(payloads[i]) == Some(piece(data, i))
        }
        &&& bytes == chunks_of(payloads)
    };
    lemma_pieces_read(data, payloads, 0);
    assert(payloads.subrange(0, payloads.len() as int) =~= payloads);
    assert(data.subrange(0, data.len() as int) =~= data);
}

/// `data` as compressed chunks, a chunk for each piece of `CHUNK_SIZE`
/// bytes, the last piece shorter; nothing where a piece compresses to more
/// bytes than a chunk's length counts.
pub fn compressed_chunks(data: &[u8]) -> (out: Option<Vec<u8>>)
    ensures
        out matches Some(o) ==> chunks_of_data(o@, data@),
        out matches Some(o) ==> stream_data(o@) == Some(data@),
{
    let mut out: Vec<u8> = Vec::new();
    let mut start: usize = 0;
    let n = data.len();
    let ghost mut payloads: Seq<Seq<u8>> = Seq::empty();
    let ghost mut k: int = 0;
    while start < n
        invariant
            n == data@.len(),
            0 <= start <= n,
            0 <= k,
            start == (if k * CHUNK_SIZE <= n { k * CHUNK_SIZE } else { n as int }),
            k == 0 || (k - 1) * CHUNK_SIZE < n,
            payloads.len() == k,
            forall|i: int| 0 <= i < payloads.len() ==> {
                &&& #[trigger] payloads[i].len() <= u32::MAX
                &&& lz4_decompressed(payloads[i]) == Some(piece(data@, i))
            },
            out@ == chunks_of(payloads),
        decreases n - start,
    {
        let end = if n - start <= CHUNK_SIZE { n } else { start + CHUNK_SIZE };
        let slice = vstd::slice::slice_subrange(data, start, end);
        let compressed = compress(slice);
        if compressed.len() > u32::MAX as usize {
            return None;
        }
        proof {
            assert(slice@ =~= piece(data@, k));
        }
        let ghost before = out@;
        push_chunk(&mut out, COMPRESSED, compressed.as_slice());
        proof {
            let next = payloads.push(compressed@);
            assert(next.drop_last() =~= payloads);
            assert(out@ == chunks_of(next));
            payloads = next;
            k = k + 1;
        }
        start = end;
    }
    proof {
        vstd::arithmetic::div_mod::lemma_fundamental_div_mod(n as int + CHUNK_SIZE as int - 1, CHUNK_SIZE as int);
        assert(piece_count(data@) == k);
        assert(chunks_of_data(out@, data@));
        lemma_chunks_round_trip(out@, data@);
    }
    Some(out)
}

/// Why a chunk could not be read.
#[derive(Copy, Clone, Debug, PartialEq, Eq, Structural)]
pub enum ChunkError {
    /// The kind byte is neither of the two kinds.
    UnexpectedKind,
    /// A compressed payload does not decode.
    Decompression,
}

/// Whether a chunk's kind byte is known; only these are followed by a
/// length.
pub fn known_kind(kind: u8) -> (r: bool)
    ensures
        r == (kind == COMPRESSED || kind == UNCOMPRESSED),
{
    kind == COMPRESSED || kind == UNCOMPRESSED
}

/// The data of a chunk of a kind other than the stored one: a compressed
/// payload decoded, or an error for an unknown kind.
pub fn decode_chunk(kind: u8, payload: &[u8]) -> (data: Result<Vec<u8>, ChunkError>)
    requires
        kind != UNCOMPRESSED,
    ensures
        kind != COMPRESSED ==> data == Err::<Vec<u8>, ChunkError>(ChunkError::UnexpectedKind),
        kind == COMPRESSED ==> match data {
            Ok(d) => lz4_decompressed(payload@) == Some(d@),
            Err(e) => e == ChunkError::Decompression && lz4_decompressed(payload@) is None,
        },
{
    if kind != COMPRESSED {
        return Err(ChunkError::UnexpectedKind);
    }
    match decompress(payload) {
        Some(data) => Ok(data),
        None => Err(ChunkError::Decompression),
    }
}

} // verus!
