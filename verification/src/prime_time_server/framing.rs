//! Framing of the request byte stream into chunks of whole lines.
//!
//! Bytes arrive in reads of arbitrary size. `chunk_read` joins the bytes left
//! over from the previous read with the newly received ones, hands out the
//! longest prefix that ends in a newline as the chunk to process, and keeps
//! the rest for the next read.

use vstd::prelude::*;

verus! {

/// Size of the read buffer, of the carry-over buffer and of the write buffer.
pub const BUF_SIZE: usize = 1024 * 16;

/// The newline byte that ends each request and each response.
pub const NEWLINE: u8 = 10;

/// Index of the last newline byte in `data`, or -1 when `data` holds none.
pub open spec fn last_newline_index(data: Seq<u8>) -> int
    decreases data.len(),
{
    if data.len() == 0 {
        -1
    } else if data.last() == NEWLINE {
        data.len() - 1
    } else {
        last_newline_index(data.drop_last())
    }
}

/// Length of the chunk handed out for `data`: everything up to and including
/// the last newline, or nothing when `data` holds no newline.
pub open spec fn chunk_length(data: Seq<u8>) -> int {
    last_newline_index(data) + 1
}

/// The chunk handed out for `data`.
pub open spec fn chunk_of(data: Seq<u8>) -> Seq<u8> {
    data.subrange(0, chunk_length(data))
}

/// The bytes of `data` kept back for the next read.
pub open spec fn leftover_of(data: Seq<u8>) -> Seq<u8> {
    data.subrange(chunk_length(data), data.len() as int)
}

/// The bytes a call of `chunk_read` works on: the carried-over bytes followed
/// by the newly received ones.
pub open spec fn joined(back: Seq<u8>, back_end: int, received: Seq<u8>) -> Seq<u8> {
    back.subrange(0, back_end) + received
}

/// The index found by the scan is the last newline of `data`, and the
/// bytes after it hold none.
proof fn lemma_last_newline_facts(data: Seq<u8>)
    ensures
        -1 <= last_newline_index(data) < data.len(),
        last_newline_index(data) >= 0 ==> data[last_newline_index(data)] == NEWLINE,
        forall|k: int|
            last_newline_index(data) < k < data.len() ==> #[trigger] data[k] != NEWLINE,
    decreases data.len(),
{
    if data.len() > 0 && data.last() != NEWLINE {
        let init = data.drop_last();
        lemma_last_newline_facts(init);
        assert forall|k: int| last_newline_index(data) < k < data.len() implies #[trigger] data[k]
            != NEWLINE by {
            if k < data.len() - 1 {
                assert(data[k] == init[k]);
            }
        }
    }
}

/// Scanning `data[..j]` finds the same last newline as scanning `data` when
/// `data[j..]` holds no newline.
proof fn lemma_last_newline_prefix(data: Seq<u8>, j: int)
    requires
        0 <= j <= data.len(),
        forall|k: int| j <= k < data.len() ==> #[trigger] data[k] != NEWLINE,
    ensures
        last_newline_index(data) == last_newline_index(data.subrange(0, j)),
    decreases data.len() - j,
{
    if j < data.len() {
        assert(data.subrange(0, j + 1).drop_last() =~= data.subrange(0, j));
        lemma_last_newline_prefix(data, j + 1);
    } else {
        assert(data.subrange(0, j) =~= data);
    }
}

/// Joins the bytes kept back by the previous call (`back_buf[..*back_buf_end]`)
/// with the bytes `received` from the stream, places them at the start of
/// `buf`, and returns the length of the chunk to process: everything up to
/// and including the last newline (0 when there is none). The bytes after
/// the chunk, which hold no newline, are kept back in
/// `back_buf[..*back_buf_end]` for the next call.
pub fn chunk_read(
    received: &[u8],
    buf: &mut [u8; BUF_SIZE],
    back_buf: &mut [u8; BUF_SIZE],
    back_buf_end: &mut usize,
) -> (chunk_len: usize)
    requires
        *old(back_buf_end) <= BUF_SIZE,
        received@.len() <= BUF_SIZE - *old(back_buf_end),
    ensures
        ({
            let data = joined(old(back_buf)@, *old(back_buf_end) as int, received@);
            &&& chunk_len as int == chunk_length(data)
            &&& final(buf)@ == data + old(buf)@.subrange(data.len() as int, BUF_SIZE as int)
            &&& *final(back_buf_end) as int == data.len() - chunk_len
            &&& final(back_buf)@ == leftover_of(data) + old(back_buf)@.subrange(
                *final(back_buf_end) as int,
                BUF_SIZE as int,
            )
        }),
{
    let ghost data = joined(back_buf@, *back_buf_end as int, received@);
    let end = *back_buf_end;
    let mut i: usize = 0;
    while i < end
        invariant
            end == *back_buf_end,
            end <= BUF_SIZE,
            0 <= i <= end,
            data == joined(back_buf@, end as int, received@),
            buf@.len() == BUF_SIZE,
            forall|k: int| 0 <= k < i ==> #[trigger] buf@[k] == back_buf@[k],
            forall|k: int| i <= k < BUF_SIZE ==> #[trigger] buf@[k] == old(buf)@[k],
            back_buf@ == old(back_buf)@,
        decreases end - i,
    {
        buf[i] = back_buf[i];
        i = i + 1;
    }
    let n = received.len();
    let mut j: usize = 0;
    while j < n
        invariant
            end == *back_buf_end,
            n == received@.len(),
            end + n <= BUF_SIZE,
            0 <= j <= n,
            data == joined(back_buf@, end as int, received@),
            buf@.len() == BUF_SIZE,
            forall|k: int| 0 <= k < end ==> #[trigger] buf@[k] == back_buf@[k],
            forall|k: int| 0 <= k < j ==> #[trigger] buf@[end + k] == received@[k],
            forall|k: int| end + j <= k < BUF_SIZE ==> #[trigger] buf@[k] == old(buf)@[k],
            back_buf@ == old(back_buf)@,
        decreases n - j,
    {
        buf[end + j] = received[j];
        j = j + 1;
    }
    let read_len = end + n;
    assert forall|k: int| end <= k < read_len implies #[trigger] buf@[k] == data[k] by {
        assert(buf@[end + (k - end)] == received@[k - end]);
    }
    assert(buf@.subrange(0, read_len as int) =~= data);
    assert(buf@ =~= data + old(buf)@.subrange(data.len() as int, BUF_SIZE as int));
    if read_len == 0 {
        assert(back_buf@ =~= leftover_of(data) + old(back_buf)@.subrange(0, BUF_SIZE as int));
        return 0;
    }
    // Find the last newline, scanning backwards.

    let mut p: usize = read_len;
    let mut found: bool = false;
    while p > 0 && !found
        invariant
            read_len == data.len(),
            read_len <= BUF_SIZE,
            buf@.subrange(0, read_len as int) == data,
            0 <= p <= read_len,
            found ==> p < read_len && data[p as int] == NEWLINE,
            forall|k: int| p < k < read_len ==> #[trigger] data[k] != NEWLINE,
            !found ==> forall|k: int| p <= k < read_len ==> #[trigger] data[k] != NEWLINE,
        decreases p + (if found { 0int } else { 1int }),
    {
        if buf[p - 1] == NEWLINE {
            p = p - 1;
            found = true;
        } else {
            p = p - 1;
        }
    }
    let mut chunk_len: usize = 0;
    if found {
        proof {
            lemma_last_newline_prefix(data, p + 1);
            assert(data.subrange(0, p + 1).last() == NEWLINE);
        }
        chunk_len = p + 1;
        *back_buf_end = read_len - p - 1;
    } else {
        proof {
            lemma_last_newline_prefix(data, 0);
        }
        *back_buf_end = read_len;
    }
    assert(chunk_len as int == chunk_length(data));
    let new_end = *back_buf_end;
    let mut q: usize = 0;
    while q < new_end
        invariant
            read_len == data.len(),
            read_len <= BUF_SIZE,
            buf@.subrange(0, read_len as int) == data,
            chunk_len + new_end == read_len,
            0 <= q <= new_end,
            back_buf@.len() == BUF_SIZE,
            forall|k: int| 0 <= k < q ==> #[trigger] back_buf@[k] == data[chunk_len + k],
            forall|k: int| q <= k < BUF_SIZE ==> #[trigger] back_buf@[k] == old(back_buf)@[k],
        decreases new_end - q,
    {
        back_buf[q] = buf[chunk_len + q];
        q = q + 1;
    }
    assert(back_buf@ =~= leftover_of(data) + old(back_buf)@.subrange(
        new_end as int,
        BUF_SIZE as int,
    ));
    chunk_len
}

/// Where line `j` of a split starts: at 0 for the first line, else just
/// after the newline that ends the line before it.
pub open spec fn line_start(lines: Seq<(usize, usize)>, j: int) -> int {
    if j <= 0 {
        0
    } else {
        lines[j - 1].1 + 1
    }
}

/// `lines` splits `data[..k]` into its newline-terminated lines: each entry
/// `(s, e)` is a line `data[s..e]` ended by the newline at `e`, the lines
/// follow each other without gaps from index 0, no line holds a newline, and
/// the bytes after the last newline (an unterminated line) hold none either.
#[verifier::opaque]
pub open spec fn is_line_split(data: Seq<u8>, k: int, lines: Seq<(usize, usize)>) -> bool {
    &&& forall|j: int|
        0 <= j < lines.len() ==> {
            &&& (#[trigger] lines[j]).0 == line_start(lines, j)
            &&& lines[j].0 <= lines[j].1 < k
            &&& data[lines[j].1 as int] == NEWLINE
        }
    &&& forall|j: int, m: int|
        0 <= j < lines.len() && (#[trigger] lines[j]).0 <= m < lines[j].1 ==> #[trigger] data[m]
            != NEWLINE
    &&& forall|m: int| line_start(lines, lines.len() as int) <= m < k ==> #[trigger] data[m] != NEWLINE
}

/// Splits the first `chunk_len` bytes of `buf` into request lines, returning
/// for each line its start and its end (the index of its newline, excluded
/// from the line). An unterminated last line yields no entry. Every byte,
/// NUL bytes included, belongs to the line it stands in: a line that is not
/// a request is left for the parser to reject.
#[verifier::spinoff_prover]
#[verifier::rlimit(30)]
pub fn request_lines(buf: &[u8; BUF_SIZE], chunk_len: usize) -> (lines: Vec<(usize, usize)>)
    requires
        chunk_len <= BUF_SIZE,
    ensures
        is_line_split(buf@, chunk_len as int, lines@),
        line_contents(buf@, lines@) == lines_of(buf@.subrange(0, chunk_len as int)),
        forall|j: int| 0 <= j < lines@.len() ==> (#[trigger] lines@[j]).0 <= lines@[j].1 < chunk_len,
{
    let mut v: Vec<(usize, usize)> = Vec::new();
    let mut start_i: usize = 0;
    let mut i: usize = 0;
    while i < chunk_len
        invariant
            0 <= start_i <= i <= chunk_len,
            chunk_len <= BUF_SIZE,
            start_i == line_start(v@, v@.len() as int),
            forall|j: int|
                0 <= j < v@.len() ==> {
                    &&& (#[trigger] v@[j]).0 == line_start(v@, j)
                    &&& v@[j].0 <= v@[j].1 < i
                    &&& buf@[v@[j].1 as int] == NEWLINE
                },
            forall|j: int, m: int|
                0 <= j < v@.len() && (#[trigger] v@[j]).0 <= m < v@[j].1 ==> #[trigger] buf@[m]
                    != NEWLINE,
            forall|m: int| start_i <= m < i ==> #[trigger] buf@[m] != NEWLINE,
        decreases chunk_len - i,
    {
        if buf[i] == NEWLINE {
            let ghost old_v = v@;
            v.push((start_i, i));
            assert forall|j: int| 0 <= j < v@.len() implies line_start(v@, j) == line_start(
                old_v,
                j,
            ) by {}
            start_i = i + 1;
        }
        i = i + 1;
    }
    proof {
        reveal(is_line_split);
        lemma_split_lines_are_lines_of(buf@, chunk_len as int, v@);
    }
    v
}

/// The UTF-8 bytes of a response text.
pub open spec fn text_bytes(text: Seq<char>) -> Seq<u8> {
    vstd::utf8::encode_utf8(text)
}

/// Appends `response_text` and a newline to the write buffer, whose first
/// `wirte_buf_len` bytes are already in use, and returns the new number of
/// bytes in use. The bytes before and after the appended line are kept.
pub fn append_line(response_text: String, wirte_buf: &mut [u8; BUF_SIZE], wirte_buf_len: usize) -> (new_len: usize)
    requires
        wirte_buf_len + text_bytes(response_text@).len() < BUF_SIZE,
    ensures
        new_len == wirte_buf_len + text_bytes(response_text@).len() + 1,
        final(wirte_buf)@ == old(wirte_buf)@.subrange(0, wirte_buf_len as int) + text_bytes(
            response_text@,
        ) + seq![NEWLINE] + old(wirte_buf)@.subrange(new_len as int, BUF_SIZE as int),
{
    let bytes: &[u8] = response_text.as_str().as_bytes();
    let n = bytes.len();
    let mut i: usize = 0;
    while i < n
        invariant
            n == bytes@.len(),
            bytes@ == text_bytes(response_text@),
            wirte_buf_len + n < BUF_SIZE,
            0 <= i <= n,
            wirte_buf@.len() == BUF_SIZE,
            forall|k: int| 0 <= k < wirte_buf_len ==> #[trigger] wirte_buf@[k] == old(wirte_buf)@[k],
            forall|k: int| 0 <= k < i ==> #[trigger] wirte_buf@[wirte_buf_len + k] == bytes@[k],
            forall|k: int|
                wirte_buf_len + i <= k < BUF_SIZE ==> #[trigger] wirte_buf@[k] == old(wirte_buf)@[k],
        decreases n - i,
    {
        wirte_buf[wirte_buf_len + i] = bytes[i];
        i = i + 1;
    }
    wirte_buf[wirte_buf_len + n] = NEWLINE;
    let new_len = wirte_buf_len + n + 1;
    let ghost expected = old(wirte_buf)@.subrange(0, wirte_buf_len as int) + bytes@ + seq![NEWLINE]
        + old(wirte_buf)@.subrange(new_len as int, BUF_SIZE as int);
    assert forall|k: int| 0 <= k < BUF_SIZE implies #[trigger] wirte_buf@[k] == expected[k] by {
        if wirte_buf_len <= k < wirte_buf_len + n {
            assert(wirte_buf@[wirte_buf_len + (k - wirte_buf_len)] == bytes@[k - wirte_buf_len]);
        }
    }
    assert(wirte_buf@ =~= expected);
    new_len
}

/// What the session does after a call of `chunk_read`.
#[derive(PartialEq, Eq, Structural, Debug, Clone, Copy)]
pub enum ChunkStep {
    /// A chunk of whole lines is ready: parse and answer it.
    Process,
    /// No whole line yet, bytes were received and there is room left: read
    /// again.
    ReadMore,
    /// The held-back bytes fill the whole buffer without a newline: the line
    /// is too long to be a request, so send a malformed response and close.
    Overflow,
    /// The read received nothing: the peer has closed the connection.
    Close,
}

/// Decides the next step of the session from the chunk length returned by
/// `chunk_read`, the number of bytes that read received, and the number of
/// bytes held back.
pub fn after_chunk(chunk_len: usize, received_len: usize, back_buf_end: usize) -> (step: ChunkStep)
    ensures
        chunk_len != 0 ==> step == ChunkStep::Process,
        chunk_len == 0 && back_buf_end >= BUF_SIZE ==> step == ChunkStep::Overflow,
        chunk_len == 0 && back_buf_end < BUF_SIZE && received_len == 0 ==> step == ChunkStep::Close,
        chunk_len == 0 && back_buf_end < BUF_SIZE && received_len != 0 ==> step
            == ChunkStep::ReadMore,
{
    if chunk_len != 0 {
        ChunkStep::Process
    } else if back_buf_end >= BUF_SIZE {
        ChunkStep::Overflow
    } else if received_len == 0 {
        ChunkStep::Close
    } else {
        ChunkStep::ReadMore
    }
}

/// A read that completes no line keeps every byte it received: the bytes
/// held back grow by the bytes received. So `after_chunk` answers `ReadMore`
/// only while the held-back bytes strictly grow, and a session that stops
/// receiving newlines reaches `Close` or `Overflow` after at most `BUF_SIZE`
/// reads.
pub proof fn lemma_read_more_grows(back: Seq<u8>, back_end: int, received: Seq<u8>)
    requires
        0 <= back_end <= back.len(),
        chunk_length(joined(back, back_end, received)) == 0,
    ensures
        leftover_of(joined(back, back_end, received)).len() == back_end + received.len(),
{
}

/// Splitting the joined bytes loses nothing and cuts at line ends: the
/// chunk followed by the bytes held back is the joined bytes; a non-empty
/// chunk ends with a newline; the bytes held back hold no newline; and the
/// chunk is empty only when the joined bytes hold no newline.
pub proof fn lemma_chunk_split(data: Seq<u8>)
    ensures
        chunk_of(data) + leftover_of(data) == data,
        chunk_of(data).len() > 0 ==> chunk_of(data).last() == NEWLINE,
        forall|k: int| 0 <= k < leftover_of(data).len() ==> #[trigger] leftover_of(data)[k] != NEWLINE,
        chunk_of(data).len() == 0 ==> forall|k: int| 0 <= k < data.len() ==> #[trigger] data[k] != NEWLINE,
{
    lemma_last_newline_facts(data);
    assert(chunk_of(data) + leftover_of(data) =~= data);
    let c = chunk_length(data);
    assert forall|k: int| 0 <= k < leftover_of(data).len() implies #[trigger] leftover_of(data)[k]
        != NEWLINE by {
        assert(leftover_of(data)[k] == data[c + k]);
    }
}

/// The chunks handed out by successive calls of `chunk_read`, starting with
/// the bytes `back` held back and receiving `reads` one after another, all
/// joined in order; and the bytes held back at the end.
pub open spec fn stream_chunks(back: Seq<u8>, reads: Seq<Seq<u8>>) -> (Seq<u8>, Seq<u8>)
    decreases reads.len(),
{
    if reads.len() == 0 {
        (Seq::empty(), back)
    } else {
        let data = back + reads[0];
        let rest = stream_chunks(leftover_of(data), reads.drop_first());
        (chunk_of(data) + rest.0, rest.1)
    }
}

/// Over any sequence of reads, the chunks handed out, in order, followed by
/// the bytes still held back, are exactly the bytes held back at the start
/// followed by all bytes received, in order: framing neither loses,
/// duplicates nor reorders bytes.
pub proof fn lemma_stream_reassembles(back: Seq<u8>, reads: Seq<Seq<u8>>)
    ensures
        stream_chunks(back, reads).0 + stream_chunks(back, reads).1 == back + reads.flatten(),
    decreases reads.len(),
{
    if reads.len() > 0 {
        let data = back + reads[0];
        lemma_chunk_split(data);
        lemma_stream_reassembles(leftover_of(data), reads.drop_first());
        let rest = stream_chunks(leftover_of(data), reads.drop_first());
        assert(chunk_of(data) + rest.0 + rest.1 =~= chunk_of(data) + (rest.0 + rest.1));
        assert(back + reads.flatten() =~= data + reads.drop_first().flatten());
        assert(chunk_of(data) + (leftover_of(data) + reads.drop_first().flatten()) =~= data
            + reads.drop_first().flatten());
    } else {
        assert(Seq::<u8>::empty() + back =~= back + reads.flatten());
    }
}

/// The bytes of the lines of a split, each followed by its newline.
pub open spec fn terminated_lines(data: Seq<u8>, lines: Seq<(usize, usize)>) -> Seq<u8>
    decreases lines.len(),
{
    if lines.len() == 0 {
        Seq::empty()
    } else {
        terminated_lines(data, lines.drop_last()) + data.subrange(
            lines.last().0 as int,
            lines.last().1 as int,
        ).push(NEWLINE)
    }
}

/// Dropping the last line of a split leaves a split of the region that
/// ends at that line's newline.
proof fn lemma_split_init(data: Seq<u8>, k: int, lines: Seq<(usize, usize)>)
    requires
        is_line_split(data, k, lines),
        lines.len() > 0,
    ensures
        is_line_split(data, lines.last().1 as int, lines.drop_last()),
        lines.last().0 == line_start(lines.drop_last(), lines.len() - 1),
        lines.last().0 <= lines.last().1 < k,
        data[lines.last().1 as int] == NEWLINE,
        forall|m: int| lines.last().0 <= m < lines.last().1 ==> #[trigger] data[m] != NEWLINE,
{
    reveal(is_line_split);
    let init = lines.drop_last();
    let last = lines.last();
    let n = lines.len() - 1;
    assert(lines[n] == last);
    assert forall|j: int| 0 <= j <= init.len() implies line_start(init, j) == line_start(lines, j) by {}
    assert forall|j: int| 0 <= j < init.len() implies {
        &&& (#[trigger] init[j]).0 == line_start(init, j)
        &&& init[j].0 <= init[j].1 < last.1
        &&& data[init[j].1 as int] == NEWLINE
    } by {
        assert(init[j] == lines[j]);
        assert(lines[j + 1].0 == line_start(lines, j + 1));
    }
    assert forall|j: int, m: int|
        0 <= j < init.len() && (#[trigger] init[j]).0 <= m < init[j].1 implies #[trigger] data[m]
        != NEWLINE by {
        assert(init[j] == lines[j]);
    }
    assert forall|m: int| line_start(init, init.len() as int) <= m < last.1 implies #[trigger] data[m]
        != NEWLINE by {
        assert(lines[n].0 == line_start(lines, n));
    }
    assert forall|m: int| last.0 <= m < last.1 implies #[trigger] data[m] != NEWLINE by {
        assert(lines[n] == last);
    }
}

/// The lines of a split, each with its newline put back, are exactly the
/// bytes before the unterminated rest: splitting drops no byte but the
/// newlines that end the lines.
pub proof fn lemma_lines_reassemble(data: Seq<u8>, k: int, lines: Seq<(usize, usize)>)
    requires
        is_line_split(data, k, lines),
        k <= data.len(),
    ensures
        terminated_lines(data, lines) == data.subrange(0, line_start(lines, lines.len() as int)),
    decreases lines.len(),
{
    if lines.len() > 0 {
        let init = lines.drop_last();
        let last = lines.last();
        let n = lines.len() - 1;
        lemma_split_init(data, k, lines);
        lemma_lines_reassemble(data, last.1 as int, init);
        assert(data.subrange(0, line_start(init, n)) + data.subrange(last.0 as int, last.1 as int).push(
            NEWLINE,
        ) =~= data.subrange(0, last.1 + 1));
    } else {
        assert(data.subrange(0, 0) =~= Seq::<u8>::empty());
    }
}

/// A region that ends with a newline splits into whole lines only: the
/// lines cover it up to its last byte, so no unterminated rest is left. In
/// particular every chunk handed out by `chunk_read`, which ends with a
/// newline, is made of whole request lines.
pub proof fn lemma_lines_cover_terminated_region(data: Seq<u8>, k: int, lines: Seq<(usize, usize)>)
    requires
        0 < k <= data.len(),
        data[k - 1] == NEWLINE,
        is_line_split(data, k, lines),
    ensures
        line_start(lines, lines.len() as int) == k,
{
    reveal(is_line_split);
    if lines.len() > 0 {
        let n = lines.len() - 1;
        assert(lines[n].1 < k);
    }
    if line_start(lines, lines.len() as int) < k {
        assert(data[k - 1] != NEWLINE);
    }
}

/// The complete lines of `data` (without their newlines), where the line
/// in progress already holds `cur`; bytes after the last newline form no
/// complete line.
#[verifier::opaque]
pub open spec fn lines_from(data: Seq<u8>, cur: Seq<u8>) -> Seq<Seq<u8>>
    decreases data.len(),
{
    if data.len() == 0 {
        Seq::empty()
    } else if data[0] == NEWLINE {
        seq![cur] + lines_from(data.drop_first(), Seq::empty())
    } else {
        lines_from(data.drop_first(), cur.push(data[0]))
    }
}

/// The complete, newline-terminated lines of `data`, in order, without
/// their newlines.
pub open spec fn lines_of(data: Seq<u8>) -> Seq<Seq<u8>> {
    lines_from(data, Seq::empty())
}

/// Bytes without a newline complete no line.
proof fn lemma_lines_no_newline(data: Seq<u8>, cur: Seq<u8>)
    requires
        forall|k: int| 0 <= k < data.len() ==> #[trigger] data[k] != NEWLINE,
    ensures
        lines_from(data, cur) == Seq::<Seq<u8>>::empty(),
    decreases data.len(),
{
    reveal(lines_from);
    if data.len() > 0 {
        assert(data[0] != NEWLINE);
        assert forall|k: int| 0 <= k < data.drop_first().len() implies #[trigger] data.drop_first()[k]
            != NEWLINE by {
            assert(data.drop_first()[k] == data[k + 1]);
        }
        lemma_lines_no_newline(data.drop_first(), cur.push(data[0]));
    }
}

/// A newline-free segment followed by a newline completes exactly one line.
proof fn lemma_lines_segment(seg: Seq<u8>, cur: Seq<u8>)
    requires
        forall|k: int| 0 <= k < seg.len() ==> #[trigger] seg[k] != NEWLINE,
    ensures
        lines_from(seg.push(NEWLINE), cur) == seq![cur + seg],
    decreases seg.len(),
{
    reveal(lines_from);
    let data = seg.push(NEWLINE);
    if seg.len() == 0 {
        assert(data[0] == NEWLINE);
        assert(data.drop_first() =~= Seq::<u8>::empty());
        assert(lines_from(data.drop_first(), Seq::empty()) == Seq::<Seq<u8>>::empty());
        assert(cur + seg =~= cur);
        assert(seq![cur] + Seq::<Seq<u8>>::empty() =~= seq![cur]);
    } else {
        assert(data[0] == seg[0]);
        assert(seg[0] != NEWLINE);
        assert(data.drop_first() =~= seg.drop_first().push(NEWLINE));
        assert forall|k: int| 0 <= k < seg.drop_first().len() implies #[trigger] seg.drop_first()[k]
            != NEWLINE by {
            assert(seg.drop_first()[k] == seg[k + 1]);
        }
        lemma_lines_segment(seg.drop_first(), cur.push(seg[0]));
        assert(cur.push(seg[0]) + seg.drop_first() =~= cur + seg);
    }
}

/// The lines of two pieces, the first ending with a newline, are the lines
/// of the first followed by the lines of the second.
proof fn lemma_lines_concat(x: Seq<u8>, y: Seq<u8>, cur: Seq<u8>)
    requires
        x.len() > 0,
        x.last() == NEWLINE,
    ensures
        lines_from(x + y, cur) == lines_from(x, cur) + lines_of(y),
    decreases x.len(),
{
    reveal(lines_from);
    assert((x + y).drop_first() =~= x.drop_first() + y);
    if x.len() == 1 {
        assert(x.drop_first() =~= Seq::<u8>::empty());
        assert(x.drop_first() + y =~= y);
        assert(lines_from(x, cur) =~= seq![cur]);
    } else if x[0] == NEWLINE {
        lemma_lines_concat(x.drop_first(), y, Seq::empty());
        assert(seq![cur] + (lines_from(x.drop_first(), Seq::empty()) + lines_of(y)) =~= seq![cur]
            + lines_from(x.drop_first(), Seq::empty()) + lines_of(y));
    } else {
        lemma_lines_concat(x.drop_first(), y, cur.push(x[0]));
    }
}

/// The contents of the lines of a split, in order.
pub open spec fn line_contents(data: Seq<u8>, lines: Seq<(usize, usize)>) -> Seq<Seq<u8>> {
    Seq::new(lines.len(), |j: int| data.subrange(lines[j].0 as int, lines[j].1 as int))
}

/// The lines of a split, each with its newline put back, hold exactly the
/// lines of the split.
proof fn lemma_terminated_lines_contents(data: Seq<u8>, k: int, lines: Seq<(usize, usize)>)
    requires
        is_line_split(data, k, lines),
        k <= data.len(),
    ensures
        lines_of(terminated_lines(data, lines)) == line_contents(data, lines),
    decreases lines.len(),
{
    if lines.len() > 0 {
        let init = lines.drop_last();
        let last = lines.last();
        let seg = data.subrange(last.0 as int, last.1 as int);
        lemma_split_init(data, k, lines);
        assert forall|m: int| 0 <= m < seg.len() implies #[trigger] seg[m] != NEWLINE by {
            assert(seg[m] == data[last.0 + m]);
        }
        lemma_lines_segment(seg, Seq::empty());
        assert(Seq::<u8>::empty() + seg =~= seg);
        assert(lines_of(seg.push(NEWLINE)) == seq![seg]);
        lemma_terminated_lines_contents(data, last.1 as int, init);
        let front = terminated_lines(data, init);
        assert(terminated_lines(data, lines) == front + seg.push(NEWLINE));
        if init.len() > 0 {
            lemma_last_line_ends_with_newline(data, last.1 as int, init);
            lemma_lines_concat(front, seg.push(NEWLINE), Seq::empty());
        } else {
            assert(front =~= Seq::<u8>::empty());
            assert(front + seg.push(NEWLINE) =~= seg.push(NEWLINE));
            assert(line_contents(data, init) =~= Seq::<Seq<u8>>::empty());
        }
        assert(lines_of(front + seg.push(NEWLINE)) == line_contents(data, init) + seq![seg]);
        assert(lines[lines.len() - 1] == last);
        assert forall|j: int| 0 <= j < init.len() implies #[trigger] lines[j] == init[j] by {}
        assert(line_contents(data, lines) =~= line_contents(data, init) + seq![seg]);
    } else {
        lemma_lines_no_newline(Seq::empty(), Seq::empty());
        assert(line_contents(data, lines) =~= Seq::<Seq<u8>>::empty());
    }
}

/// The lines of a non-empty split, each with its newline put back, end
/// with a newline.
proof fn lemma_last_line_ends_with_newline(data: Seq<u8>, k: int, lines: Seq<(usize, usize)>)
    requires
        is_line_split(data, k, lines),
        k <= data.len(),
        lines.len() > 0,
    ensures
        terminated_lines(data, lines).len() > 0,
        terminated_lines(data, lines).last() == NEWLINE,
{
    let last = lines.last();
    let front = terminated_lines(data, lines.drop_last());
    let tail = data.subrange(last.0 as int, last.1 as int).push(NEWLINE);
    assert(terminated_lines(data, lines) == front + tail);
    assert((front + tail).last() == tail.last());
}

/// The lines that `request_lines` returns are exactly the complete lines of
/// the region it splits, in order: no line is lost, merged or made up.
pub proof fn lemma_split_lines_are_lines_of(data: Seq<u8>, k: int, lines: Seq<(usize, usize)>)
    requires
        is_line_split(data, k, lines),
        0 <= k <= data.len(),
    ensures
        line_contents(data, lines) == lines_of(data.subrange(0, k)),
{
    let t = line_start(lines, lines.len() as int);
    let front = data.subrange(0, t);
    let tail = data.subrange(t, k);
    assert(0 <= t <= k) by {
        reveal(is_line_split);
        if lines.len() > 0 {
            let n = lines.len() - 1;
            assert(lines[n].1 < k);
        }
    }
    assert(lines_of(front) == line_contents(data, lines)) by {
        lemma_lines_reassemble(data, k, lines);
        lemma_terminated_lines_contents(data, k, lines);
    }
    assert(lines_of(tail) == Seq::<Seq<u8>>::empty()) by {
        reveal(is_line_split);
        assert forall|m: int| 0 <= m < tail.len() implies #[trigger] tail[m] != NEWLINE by {
            assert(tail[m] == data[t + m]);
        }
        lemma_lines_no_newline(tail, Seq::empty());
    }
    assert(front + tail =~= data.subrange(0, k));
    if lines.len() > 0 {
        assert(front.len() > 0 && front.last() == NEWLINE) by {
            lemma_lines_reassemble(data, k, lines);
            lemma_last_line_ends_with_newline(data, k, lines);
        }
        lemma_lines_concat(front, tail, Seq::empty());
        assert(lines_of(front) + Seq::<Seq<u8>>::empty() =~= lines_of(front));
    } else {
        assert(front =~= Seq::<u8>::empty());
        assert(front + tail =~= tail);
        assert(line_contents(data, lines) =~= Seq::<Seq<u8>>::empty());
    }
}

/// The lines of each chunk handed out by successive calls of `chunk_read`,
/// chunk after chunk.
pub open spec fn chunk_lines(back: Seq<u8>, reads: Seq<Seq<u8>>) -> Seq<Seq<u8>>
    decreases reads.len(),
{
    if reads.len() == 0 {
        Seq::empty()
    } else {
        let data = back + reads[0];
        lines_of(chunk_of(data)) + chunk_lines(leftover_of(data), reads.drop_first())
    }
}

/// Across any sequence of reads, starting with held-back bytes that hold no
/// newline (as every call of `chunk_read` leaves them), the lines of the
/// chunks handed out, chunk after chunk, are exactly the complete lines of
/// everything received, in order: each complete request line is handed out
/// once, whatever the sizes of the reads.
pub proof fn lemma_stream_lines(back: Seq<u8>, reads: Seq<Seq<u8>>)
    requires
        forall|k: int| 0 <= k < back.len() ==> #[trigger] back[k] != NEWLINE,
    ensures
        chunk_lines(back, reads) == lines_of(back + reads.flatten()),
    decreases reads.len(),
{
    if reads.len() == 0 {
        assert(back + reads.flatten() =~= back);
        lemma_lines_no_newline(back, Seq::empty());
    } else {
        let data = back + reads[0];
        let rest = reads.drop_first().flatten();
        lemma_chunk_split(data);
        lemma_stream_lines(leftover_of(data), reads.drop_first());
        assert(back + reads.flatten() =~= data + rest);
        let c = chunk_of(data);
        let l = leftover_of(data);
        assert(data + rest =~= c + (l + rest));
        if c.len() > 0 {
            lemma_lines_concat(c, l + rest, Seq::empty());
        } else {
            assert(c =~= Seq::<u8>::empty());
            assert(c + (l + rest) =~= l + rest);
            lemma_lines_no_newline(c, Seq::empty());
            assert(Seq::<Seq<u8>>::empty() + lines_of(l + rest) =~= lines_of(l + rest));
        }
    }
}

/// Queues one response line for writing: the text and a newline go into
/// the write buffer, whose first `wirte_buf_len` bytes are in use. When they
/// do not fit, the buffered bytes are first moved to `out` (the bytes to
/// send now); a line longer than the whole buffer goes to `out` directly.
/// Returns the new number of bytes in use. What was in `out`, then what is
/// buffered, always holds every queued line in order.
pub fn queue_line(
    response_text: String,
    wirte_buf: &mut [u8; BUF_SIZE],
    wirte_buf_len: usize,
    out: &mut Vec<u8>,
) -> (new_len: usize)
    requires
        wirte_buf_len <= BUF_SIZE,
    ensures
        new_len <= BUF_SIZE,
        final(out)@ + final(wirte_buf)@.subrange(0, new_len as int) == old(out)@ + old(
            wirte_buf,
        )@.subrange(0, wirte_buf_len as int) + text_bytes(response_text@) + seq![NEWLINE],
        wirte_buf_len + text_bytes(response_text@).len() < BUF_SIZE ==> final(out)@ == old(out)@
            && new_len == wirte_buf_len + text_bytes(response_text@).len() + 1,
        wirte_buf_len + text_bytes(response_text@).len() >= BUF_SIZE && text_bytes(
            response_text@,
        ).len() < BUF_SIZE ==> final(out)@ == old(out)@ + old(wirte_buf)@.subrange(
            0,
            wirte_buf_len as int,
        ) && new_len == text_bytes(response_text@).len() + 1,
        text_bytes(response_text@).len() >= BUF_SIZE ==> final(out)@ == old(out)@ + old(
            wirte_buf,
        )@.subrange(0, wirte_buf_len as int) + text_bytes(response_text@) + seq![NEWLINE]
            && new_len == 0,
{
    let t = response_text.as_str().as_bytes().len();
    let ghost text = text_bytes(response_text@);
    if t < BUF_SIZE - wirte_buf_len {
        let new_len = append_line(response_text, wirte_buf, wirte_buf_len);
        assert(wirte_buf@.subrange(0, new_len as int) =~= old(wirte_buf)@.subrange(
            0,
            wirte_buf_len as int,
        ) + text + seq![NEWLINE]);
        assert(out@ + wirte_buf@.subrange(0, new_len as int) =~= old(out)@ + old(wirte_buf)@.subrange(
            0,
            wirte_buf_len as int,
        ) + text + seq![NEWLINE]);
        return new_len;
    }
    let mut i: usize = 0;
    while i < wirte_buf_len
        invariant
            wirte_buf_len <= BUF_SIZE,
            0 <= i <= wirte_buf_len,
            wirte_buf@ == old(wirte_buf)@,
            out@ == old(out)@ + old(wirte_buf)@.subrange(0, i as int),
        decreases wirte_buf_len - i,
    {
        out.push(wirte_buf[i]);
        i = i + 1;
        assert(out@ =~= old(out)@ + old(wirte_buf)@.subrange(0, i as int));
    }
    let ghost flushed = out@;
    if t < BUF_SIZE {
        let new_len = append_line(response_text, wirte_buf, 0);
        assert(wirte_buf@.subrange(0, new_len as int) =~= text + seq![NEWLINE]);
        assert(out@ + wirte_buf@.subrange(0, new_len as int) =~= old(out)@ + old(wirte_buf)@.subrange(
            0,
            wirte_buf_len as int,
        ) + text + seq![NEWLINE]);
        new_len
    } else {
        let bytes: &[u8] = response_text.as_str().as_bytes();
        let mut j: usize = 0;
        while j < t
            invariant
                t == bytes@.len(),
                bytes@ == text,
                0 <= j <= t,
                out@ == flushed + bytes@.subrange(0, j as int),
            decreases t - j,
        {
            out.push(bytes[j]);
            j = j + 1;
            assert(out@ =~= flushed + bytes@.subrange(0, j as int));
        }
        out.push(NEWLINE);
        assert(bytes@.subrange(0, t as int) =~= text);
        assert(wirte_buf@.subrange(0, 0) =~= Seq::<u8>::empty());
        assert(out@ + wirte_buf@.subrange(0, 0) =~= old(out)@ + old(wirte_buf)@.subrange(
            0,
            wirte_buf_len as int,
        ) + text + seq![NEWLINE]);
        0
    }
}

} // verus!
