//! Bookkeeping of the on-disk chunk cache: the file name of each cached
//! chunk, the least-recently-used order of cached chunks, which chunks a read
//! needs and how their bytes make up the answer. Reading and writing the chunk
//! files and downloading them is left to the caller.
use sha2::Digest;
use vstd::prelude::*;

use crate::api::client::RangeReply;
use crate::text::{
    decimal, decimal_bytes, digit_char, hex_lower, is_digit_char, is_hex_digit_char, join,
    join_spec, lemma_decimal_digits, lemma_hex_lower_digits, lemma_hex_lower_injective, push_char,
    push_decimal, push_decimal_bytes, push_hex_lower, push_str, starts_with,
};

verus! {

/// The SHA-256 digest of `data`.
pub uninterp spec fn sha256(data: Seq<u8>) -> Seq<u8>;

/// SHA-256 of `data` (`sha2::Sha256::digest`): the digest of exactly these
/// bytes, 32 bytes long.
#[verifier::external_body]
fn sha256_digest(data: &[u8]) -> (d: Vec<u8>)
    ensures
        d@ == sha256(data@),
        d@.len() == 32,
{
    sha2::Sha256::digest(data).to_vec()
}

/// The bytes that identify one file of one ROM: `"{rom_id}:{file_name}"`.
pub open spec fn file_tag_bytes(rom_id: u64, file_name: Seq<char>) -> Seq<u8> {
    decimal_bytes(rom_id as nat) + seq![58u8] + vstd::utf8::encode_utf8(file_name)
}

/// The cache file name of a file's chunks without the chunk number: the
/// lower-case hex SHA-256 of the file's tag, then a dot.
pub open spec fn chunk_prefix_spec(rom_id: u64, file_name: Seq<char>) -> Seq<char> {
    hex_lower(sha256(file_tag_bytes(rom_id, file_name))).push('.')
}

/// The cache file name of chunk `chunk_idx` of a file.
pub open spec fn chunk_key_spec(rom_id: u64, file_name: Seq<char>, chunk_idx: u64) -> Seq<char> {
    chunk_prefix_spec(rom_id, file_name) + decimal(chunk_idx as nat)
}

fn chunk_prefix(rom_id: u64, file_name: &str) -> (s: String)
    ensures
        s@ == chunk_prefix_spec(rom_id, file_name@),
        s@.len() == 65,
{
    let mut tag: Vec<u8> = Vec::new();
    push_decimal_bytes(&mut tag, rom_id);
    tag.push(58u8);
    let name_bytes = file_name.as_bytes();
    let mut i: usize = 0;
    while i < name_bytes.len()
        invariant
            i <= name_bytes@.len(),
            tag@ == decimal_bytes(rom_id as nat) + seq![58u8] + name_bytes@.take(i as int),
        decreases name_bytes@.len() - i,
    {
        tag.push(name_bytes[i]);
        proof {
            assert(name_bytes@.take(i + 1) =~= name_bytes@.take(i as int).push(name_bytes@[i as int]));
        }
        i = i + 1;
    }
    proof {
        assert(name_bytes@.take(i as int) =~= name_bytes@);
        assert(tag@ =~= file_tag_bytes(rom_id, file_name@));
    }
    let digest = sha256_digest(tag.as_slice());
    let mut s = String::new();
    push_hex_lower(&mut s, digest.as_slice());
    push_char(&mut s, '.');
    proof {
        assert(s@ =~= chunk_prefix_spec(rom_id, file_name@));
        crate::text::lemma_hex_lower_len(digest@);
    }
    s
}

/// The cache file name of chunk `chunk_idx` of file `file_name` of ROM
/// `rom_id`: 64 hexadecimal digits, a dot, and the chunk number in decimal.
pub fn chunk_key(rom_id: u64, file_name: &str, chunk_idx: u64) -> (s: String)
    ensures
        s@ == chunk_key_spec(rom_id, file_name@, chunk_idx),
        s@.len() == 65 + decimal(chunk_idx as nat).len(),
{
    let mut s = chunk_prefix(rom_id, file_name);
    push_decimal(&mut s, chunk_idx);
    s
}

/// The state of an LRU tracker: keys from least to most recently used, and
/// the bound it evicts down to.
pub struct LruView {
    pub order: Seq<Seq<char>>,
    pub max_entries: nat,
}

/// `order` with every occurrence of `key` taken out and `key` put last.
pub open spec fn touch_spec(order: Seq<Seq<char>>, key: Seq<char>) -> Seq<Seq<char>> {
    order.filter(other_than(key)).push(key)
}

/// Holds of every key but `key`.
pub open spec fn other_than(key: Seq<char>) -> spec_fn(Seq<char>) -> bool {
    |k: Seq<char>| k != key
}

/// How many of the oldest keys an eviction drops: none while there are fewer
/// than `max` keys, else enough to leave `max - 1` (all of them when `max` is
/// zero).
pub open spec fn evict_count(len: nat, max: nat) -> nat {
    if len < max {
        0
    } else if max == 0 {
        len
    } else {
        (len - max + 1) as nat
    }
}

/// Tracks in which order cached chunks were last used.
pub struct LruTracker {
    access_order: Vec<String>,
    max_entries: usize,
}

impl View for LruTracker {
    type V = LruView;

    closed spec fn view(&self) -> LruView {
        LruView {
            order: self.access_order@.map_values(|s: String| s@),
            max_entries: self.max_entries as nat,
        }
    }
}

impl LruTracker {
    /// An empty tracker that keeps fewer than `max_entries` keys after an
    /// eviction.
    pub fn new(max_entries: usize) -> (t: Self)
        ensures
            t@.order == Seq::<Seq<char>>::empty(),
            t@.max_entries == max_entries,
    {
        let t = LruTracker { access_order: Vec::new(), max_entries };
        proof {
            assert(t@.order =~= Seq::<Seq<char>>::empty());
        }
        t
    }

    /// Marks `key` as the most recently used.
    pub fn touch(&mut self, key: &str)
        ensures
            final(self)@.order == touch_spec(old(self)@.order, key@),
            final(self)@.max_entries == old(self)@.max_entries,
    {
        let ghost pred = other_than(key@);
        let ghost old_order = old(self)@.order;
        let wanted = key.to_owned();
        let mut kept: Vec<String> = Vec::new();
        let mut i: usize = 0;
        while i < self.access_order.len()
            invariant
                self.access_order == old(self).access_order,
                self.max_entries == old(self).max_entries,
                old_order == self.access_order@.map_values(|s: String| s@),
                wanted@ == key@,
                pred == other_than(key@),
                i <= self.access_order@.len(),
                kept@.map_values(|s: String| s@) == old_order.take(i as int).filter(pred),
            decreases self.access_order@.len() - i,
        {
            let same = self.access_order[i] == wanted;
            if !same {
                kept.push(self.access_order[i].clone());
            }
            proof {
                reveal(Seq::filter);
                let t = old_order.take(i + 1);
                assert(t.drop_last() =~= old_order.take(i as int));
                assert(t.last() == self.access_order@[i as int]@);
                assert(kept@.map_values(|s: String| s@) =~= t.filter(pred));
            }
            i = i + 1;
        }
        proof {
            assert(old_order.take(i as int) =~= old_order);
        }
        kept.push(wanted);
        self.access_order = kept;
        proof {
            assert(self@.order =~= touch_spec(old_order, key@));
        }
    }

    /// Drops the oldest keys until fewer than `max_entries` remain (all of
    /// them when `max_entries` is zero) and returns them, oldest first.
    pub fn evict_oldest(&mut self) -> (evicted: Vec<String>)
        ensures
            ({
                let n = evict_count(old(self)@.order.len(), old(self)@.max_entries);
                &&& evicted@.map_values(|s: String| s@) == old(self)@.order.take(n as int)
                &&& final(self)@.order == old(self)@.order.skip(n as int)
                &&& final(self)@.max_entries == old(self)@.max_entries
            }),
    {
        let len = self.access_order.len();
        let n: usize = if len < self.max_entries {
            0
        } else if self.max_entries == 0 {
            len
        } else {
            len - self.max_entries + 1
        };
        let ghost old_order = old(self)@.order;
        let mut evicted: Vec<String> = Vec::new();
        let mut rest: Vec<String> = Vec::new();
        let mut i: usize = 0;
        while i < len
            invariant
                self.access_order == old(self).access_order,
                self.max_entries == old(self).max_entries,
                old_order == self.access_order@.map_values(|s: String| s@),
                len == self.access_order@.len(),
                n <= len,
                i <= len,
                i <= n ==> evicted@.map_values(|s: String| s@) == old_order.take(i as int)
                    && rest@.len() == 0,
                i > n ==> evicted@.map_values(|s: String| s@) == old_order.take(n as int)
                    && rest@.map_values(|s: String| s@) == old_order.subrange(n as int, i as int),
            decreases len - i,
        {
            if i < n {
                evicted.push(self.access_order[i].clone());
                proof {
                    assert(evicted@.map_values(|s: String| s@) =~= old_order.take(i + 1));
                }
            } else {
                rest.push(self.access_order[i].clone());
                proof {
                    assert(rest@.map_values(|s: String| s@) =~= old_order.subrange(
                        n as int,
                        i + 1,
                    ));
                }
            }
            i = i + 1;
        }
        self.access_order = rest;
        proof {
            if len <= n {
                assert(self@.order =~= old_order.skip(n as int));
            } else {
                assert(self@.order =~= old_order.skip(n as int));
            }
        }
        evicted
    }
}

/// The end (exclusive) of the byte window a read asks for: `offset + size`,
/// saturated at `u64::MAX` and clipped to the file size.
pub open spec fn range_end(file_size: u64, offset: u64, size: u32) -> int {
    let e = if offset + size > u64::MAX {
        u64::MAX as int
    } else {
        offset + size
    };
    if e < file_size {
        e
    } else {
        file_size as int
    }
}

/// The first and last chunk a read touches, or `None` when the window is
/// empty.
pub open spec fn read_plan_spec(chunk_size: u64, file_size: u64, offset: u64, size: u32) -> Option<
    (u64, u64),
> {
    let e = range_end(file_size, offset, size);
    if offset >= e {
        None
    } else {
        Some(((offset / chunk_size) as u64, ((e - 1) / (chunk_size as int)) as u64))
    }
}

pub open spec fn min_int(a: int, b: int) -> int {
    if a < b {
        a
    } else {
        b
    }
}

pub open spec fn max_int(a: int, b: int) -> int {
    if a < b {
        b
    } else {
        a
    }
}

/// The bytes that chunk `idx` (holding `data`) contributes to the window
/// `[offset, end)`: the part of the chunk's slot
/// `[idx * chunk_size, (idx + 1) * chunk_size)` that lies in the window, cut
/// down to what `data` holds.
pub open spec fn chunk_piece(chunk_size: int, offset: int, end: int, idx: int, data: Seq<u8>) -> Seq<
    u8,
> {
    let start = idx * chunk_size;
    let from = max_int(offset, start) - start;
    let to = min_int(min_int(end, start + chunk_size) - start, data.len() as int);
    if from < to {
        data.subrange(from, to)
    } else {
        Seq::empty()
    }
}

/// The pieces of consecutive chunks `first, first + 1, ...`, concatenated.
pub open spec fn assembled(
    chunk_size: int,
    offset: int,
    end: int,
    first: int,
    chunks: Seq<Seq<u8>>,
) -> Seq<u8>
    decreases chunks.len(),
{
    if chunks.len() == 0 {
        Seq::empty()
    } else {
        assembled(chunk_size, offset, end, first, chunks.drop_last()) + chunk_piece(
            chunk_size,
            offset,
            end,
            first + chunks.len() - 1,
            chunks.last(),
        )
    }
}

/// The bytes of `file` that chunk `idx` holds: `chunk_size` bytes from
/// `idx * chunk_size`, fewer at the end of the file.
pub open spec fn chunk_of(file: Seq<u8>, chunk_size: int, idx: int) -> Seq<u8> {
    file.subrange(idx * chunk_size, min_int(idx * chunk_size + chunk_size, file.len() as int))
}

/// The data of chunk `idx` taken from a successful reply to its range
/// request: a partial reply (206) is the chunk itself; a whole-file reply
/// (any other 2xx) is cut down to the chunk's slot.
pub open spec fn reply_chunk(chunk_size: int, idx: int, whole: bool, body: Seq<u8>) -> Seq<u8> {
    if whole {
        let start = idx * chunk_size;
        if start < body.len() {
            body.subrange(start, min_int(start + chunk_size, body.len() as int))
        } else {
            Seq::empty()
        }
    } else {
        body
    }
}

/// Chunk `idx` of a file holds the file's bytes from `idx * chunk_size`
/// on, `chunk_size` of them or as many as the file has left. A partial
/// reply is the chunk as it came; from a whole-file reply the chunk's bytes
/// are cut out of the body in the same way.
pub proof fn law_chunk_bytes(chunk_size: int, idx: int, body: Seq<u8>)
    requires
        chunk_size > 0,
        idx >= 0,
    ensures
        ({
            let start = idx * chunk_size;
            let n = if start >= body.len() {
                0
            } else if body.len() - start < chunk_size {
                body.len() - start
            } else {
                chunk_size
            };
            &&& start < body.len() ==> chunk_of(body, chunk_size, idx).len() == n
            &&& reply_chunk(chunk_size, idx, true, body).len() == n
            &&& forall|k: int|
                0 <= k < n ==> #[trigger] reply_chunk(chunk_size, idx, true, body)[k] == body[start
                    + k] && chunk_of(body, chunk_size, idx)[k] == body[start + k]
        }),
        reply_chunk(chunk_size, idx, false, body) == body,
{
    assert(idx * chunk_size >= 0) by (nonlinear_arith)
        requires
            idx >= 0,
            chunk_size > 0,
    ;
}

proof fn lemma_piece_of_faithful_chunk(cs: int, off: int, end: int, idx: int, file: Seq<u8>)
    requires
        cs > 0,
        0 <= off < end <= file.len(),
        0 <= idx * cs <= end - 1,
        off < idx * cs + cs,
    ensures
        chunk_piece(cs, off, end, idx, chunk_of(file, cs, idx)) == file.subrange(
            max_int(off, idx * cs),
            min_int(end, idx * cs + cs),
        ),
{
    let c = idx * cs;
    let data = chunk_of(file, cs, idx);
    let lo = max_int(off, c);
    let hi = min_int(end, c + cs);
    assert(data.subrange(lo - c, hi - c) =~= file.subrange(lo, hi));
}

proof fn lemma_assembled_prefix(
    cs: int,
    off: int,
    end: int,
    first: int,
    last: int,
    file: Seq<u8>,
    chunks: Seq<Seq<u8>>,
    k: int,
)
    requires
        cs > 0,
        0 <= off < end <= file.len(),
        first == off / cs,
        last == (end - 1) / cs,
        chunks.len() == last - first + 1,
        forall|j: int| 0 <= j < chunks.len() ==> #[trigger] chunks[j] == chunk_of(file, cs, first + j),
        1 <= k <= chunks.len(),
    ensures
        assembled(cs, off, end, first, chunks.take(k)) == file.subrange(
            off,
            min_int(end, (first + k) * cs),
        ),
    decreases k,
{
    let idx = first + k - 1;
    vstd::arithmetic::div_mod::lemma_fundamental_div_mod(off, cs);
    vstd::arithmetic::div_mod::lemma_fundamental_div_mod(end - 1, cs);
    assert(first * cs <= off < first * cs + cs) by (nonlinear_arith)
        requires
            off == cs * first + off % cs,
            0 <= off % cs < cs,
    ;
    assert(last * cs <= end - 1) by (nonlinear_arith)
        requires
            end - 1 == cs * last + (end - 1) % cs,
            0 <= (end - 1) % cs,
    ;
    assert(0 <= first * cs <= idx * cs <= last * cs) by (nonlinear_arith)
        requires
            0 <= first <= idx <= last,
            cs > 0,
    ;
    assert((first + k) * cs == idx * cs + cs) by (nonlinear_arith)
        requires
            idx == first + k - 1,
    ;
    assert(chunks.take(k).last() == chunks[k - 1]);
    assert(chunks.take(k).drop_last() =~= chunks.take(k - 1));
    lemma_piece_of_faithful_chunk(cs, off, end, idx, file);
    if k == 1 {
        assert(assembled(cs, off, end, first, chunks.take(0)) =~= Seq::<u8>::empty());
        assert(file.subrange(off, min_int(end, idx * cs + cs)) =~= Seq::<u8>::empty()
            + file.subrange(off, min_int(end, idx * cs + cs)));
    } else {
        lemma_assembled_prefix(cs, off, end, first, last, file, chunks, k - 1);
        assert(idx * cs >= first * cs + cs) by (nonlinear_arith)
            requires
                idx >= first + 1,
                cs > 0,
        ;
        assert(file.subrange(off, min_int(end, idx * cs + cs)) =~= file.subrange(off, idx * cs)
            + file.subrange(idx * cs, min_int(end, idx * cs + cs)));
    }
}

/// When every chunk holds exactly its slice of the file, the bytes a read
/// assembles are the file's bytes from `offset` to the end of the window
/// (`offset + size`, clipped to the file).
pub proof fn law_read_returns_window(
    chunk_size: u64,
    file_size: u64,
    offset: u64,
    size: u32,
    file: Seq<u8>,
    chunks: Seq<Seq<u8>>,
)
    requires
        chunk_size > 0,
        file.len() == file_size,
        read_plan_spec(chunk_size, file_size, offset, size) is Some,
        chunks.len() == read_plan_spec(chunk_size, file_size, offset, size).unwrap().1
            - read_plan_spec(chunk_size, file_size, offset, size).unwrap().0 + 1,
        forall|j: int|
            0 <= j < chunks.len() ==> #[trigger] chunks[j] == chunk_of(
                file,
                chunk_size as int,
                read_plan_spec(chunk_size, file_size, offset, size).unwrap().0 + j,
            ),
    ensures
        assembled(
            chunk_size as int,
            offset as int,
            range_end(file_size, offset, size),
            read_plan_spec(chunk_size, file_size, offset, size).unwrap().0 as int,
            chunks,
        ) == file.subrange(offset as int, range_end(file_size, offset, size)),
{
    let cs = chunk_size as int;
    let end = range_end(file_size, offset, size);
    let (first, last) = read_plan_spec(chunk_size, file_size, offset, size).unwrap();
    vstd::arithmetic::div_mod::lemma_div_is_ordered(offset as int, end - 1, cs);
    lemma_assembled_prefix(
        cs,
        offset as int,
        end,
        first as int,
        last as int,
        file,
        chunks,
        chunks.len() as int,
    );
    assert(chunks.take(chunks.len() as int) =~= chunks);
    vstd::arithmetic::div_mod::lemma_fundamental_div_mod(end - 1, cs);
    assert((last + 1) * cs >= end) by (nonlinear_arith)
        requires
            end - 1 == cs * last + (end - 1) % cs,
            (end - 1) % cs < cs,
    ;
    assert(first + chunks.len() == last + 1);
}

/// The chunk data taken from each reply of a read's plan, in order.
pub open spec fn reply_chunks(chunk_size: int, first: int, replies: Seq<(bool, Seq<u8>)>) -> Seq<
    Seq<u8>,
> {
    Seq::new(
        replies.len(),
        |j: int| reply_chunk(chunk_size, first + j, replies[j].0, replies[j].1),
    )
}

/// A read returns the file's bytes from `offset` to the end of the window
/// whatever mix of successful replies its chunk requests got: a whole-file
/// reply (flagged `true`) holds the file, a partial reply holds the bytes of
/// the chunk's range that the file has.
pub proof fn law_read_from_replies(
    chunk_size: u64,
    file_size: u64,
    offset: u64,
    size: u32,
    file: Seq<u8>,
    replies: Seq<(bool, Seq<u8>)>,
)
    requires
        chunk_size > 0,
        file.len() == file_size,
        read_plan_spec(chunk_size, file_size, offset, size) is Some,
        replies.len() == read_plan_spec(chunk_size, file_size, offset, size).unwrap().1
            - read_plan_spec(chunk_size, file_size, offset, size).unwrap().0 + 1,
        forall|j: int|
            0 <= j < replies.len() ==> if (#[trigger] replies[j]).0 {
                replies[j].1 == file
            } else {
                replies[j].1 == chunk_of(
                    file,
                    chunk_size as int,
                    read_plan_spec(chunk_size, file_size, offset, size).unwrap().0 + j,
                )
            },
    ensures
        assembled(
            chunk_size as int,
            offset as int,
            range_end(file_size, offset, size),
            read_plan_spec(chunk_size, file_size, offset, size).unwrap().0 as int,
            reply_chunks(
                chunk_size as int,
                read_plan_spec(chunk_size, file_size, offset, size).unwrap().0 as int,
                replies,
            ),
        ) == file.subrange(offset as int, range_end(file_size, offset, size)),
{
    let cs = chunk_size as int;
    let end = range_end(file_size, offset, size);
    let (first, last) = read_plan_spec(chunk_size, file_size, offset, size).unwrap();
    let chunks = reply_chunks(cs, first as int, replies);
    vstd::arithmetic::div_mod::lemma_fundamental_div_mod(end - 1, cs);
    assert(last * cs <= end - 1) by (nonlinear_arith)
        requires
            end - 1 == cs * last + (end - 1) % cs,
            0 <= (end - 1) % cs,
    ;
    assert forall|j: int| 0 <= j < chunks.len() implies #[trigger] chunks[j] == chunk_of(
        file,
        cs,
        first + j,
    ) by {
        if replies[j].0 {
            assert((first + j) * cs <= last * cs) by (nonlinear_arith)
                requires
                    0 <= first + j <= last,
                    cs > 0,
            ;
        }
    }
    law_read_returns_window(chunk_size, file_size, offset, size, file, chunks);
}

proof fn lemma_assembled_len(
    cs: int,
    off: int,
    end: int,
    first: int,
    chunks: Seq<Seq<u8>>,
)
    requires
        cs > 0,
        first >= 0,
    ensures
        assembled(cs, off, end, first, chunks).len() <= max_int(
            0,
            min_int(end, (first + chunks.len()) * cs) - off,
        ),
    decreases chunks.len(),
{
    if chunks.len() > 0 {
        let k = chunks.len() - 1;
        lemma_assembled_len(cs, off, end, first, chunks.drop_last());
        assert((first + k + 1) * cs == (first + k) * cs + cs) by (nonlinear_arith);
        assert((first + k) * cs >= 0) by (nonlinear_arith)
            requires
                first + k >= 0,
                cs > 0,
        ;
    }
}

/// Whatever the chunks hold, a read never returns more bytes than its window
/// (`offset + size`, clipped to the file) has, so never more than `size`.
pub proof fn law_read_at_most_window(
    chunk_size: u64,
    file_size: u64,
    offset: u64,
    size: u32,
    chunks: Seq<Seq<u8>>,
)
    requires
        chunk_size > 0,
        read_plan_spec(chunk_size, file_size, offset, size) is Some,
    ensures
        assembled(
            chunk_size as int,
            offset as int,
            range_end(file_size, offset, size),
            read_plan_spec(chunk_size, file_size, offset, size).unwrap().0 as int,
            chunks,
        ).len() <= range_end(file_size, offset, size) - offset,
        range_end(file_size, offset, size) - offset <= size,
{
    let (first, last) = read_plan_spec(chunk_size, file_size, offset, size).unwrap();
    lemma_assembled_len(
        chunk_size as int,
        offset as int,
        range_end(file_size, offset, size),
        first as int,
        chunks,
    );
}

/// With a nonzero chunk size and a file that ends at least one chunk below
/// the largest byte offset, every step of a read is defined for any offset
/// and size: the plan names its chunks in order, and each of them has byte
/// bounds in range, so neither its request nor the cutting of its reply can
/// overflow, whatever bytes come back for it.
pub proof fn law_read_steps_defined(chunk_size: u64, file_size: u64, offset: u64, size: u32)
    requires
        chunk_size > 0,
        file_size + chunk_size <= u64::MAX,
    ensures
        match read_plan_spec(chunk_size, file_size, offset, size) {
            None => true,
            Some((first, last)) => {
                &&& first <= last
                &&& forall|idx: u64|
                    first <= idx <= last ==> #[trigger] (idx * chunk_size) + chunk_size <= file_size
                        + chunk_size
            },
        },
{
    if let Some((first, last)) = read_plan_spec(chunk_size, file_size, offset, size) {
        let e = range_end(file_size, offset, size);
        let cs = chunk_size as int;
        assert(first <= last) by (nonlinear_arith)
            requires
                first == (offset as int) / cs,
                last == (e - 1) / cs,
                offset <= e - 1,
                cs > 0,
        ;
        assert forall|idx: u64| first <= idx <= last implies #[trigger] (idx * chunk_size) + chunk_size
            <= file_size + chunk_size by {
            assert(idx * cs <= e - 1) by (nonlinear_arith)
                requires
                    idx <= last,
                    last == (e - 1) / cs,
                    e - 1 >= 0,
                    cs > 0,
            ;
        }
    }
}

/// The window a read covers ends at `offset + size` or at the end of the
/// file, whichever comes first, so a read that starts inside the file
/// covers `min(size, file_size - offset)` bytes. Nothing is planned exactly
/// when the read starts at or past the end of the file or asks for no
/// bytes; otherwise the plan runs from the chunk holding `offset` to the
/// chunk holding the window's last byte.
pub proof fn law_read_window(chunk_size: u64, file_size: u64, offset: u64, size: u32)
    ensures
        range_end(file_size, offset, size) == (if offset + size <= file_size {
            offset + size
        } else {
            file_size as int
        }),
        offset < file_size ==> range_end(file_size, offset, size) - offset == (if size
            <= file_size - offset {
            size as int
        } else {
            file_size - offset
        }),
        read_plan_spec(chunk_size, file_size, offset, size) is None <==> (offset >= file_size
            || size == 0),
        chunk_size > 0 && offset < file_size && size > 0 ==> read_plan_spec(
            chunk_size,
            file_size,
            offset,
            size,
        ) == Some(
            (
                (offset / chunk_size) as u64,
                (((if offset + size <= file_size {
                    offset + size
                } else {
                    file_size as int
                }) - 1) / (chunk_size as int)) as u64,
            ),
        ),
{
}

/// `"{rom_id}:{file_name}"`, the name files of a ROM's file had before
/// chunk names were hashed.
pub open spec fn file_tag_spec(rom_id: u64, file_name: Seq<char>) -> Seq<char> {
    decimal(rom_id as nat).push(':') + file_name
}

/// Whether `p` is a prefix of `s`.
pub open spec fn has_prefix(s: Seq<char>, p: Seq<char>) -> bool {
    p.len() <= s.len() && s.take(p.len() as int) == p
}

/// Whether the directory entry `name` holds a chunk of the given file: it
/// starts with the file's chunk prefix or with its tag.
pub open spec fn is_chunk_file_of(name: Seq<char>, rom_id: u64, file_name: Seq<char>) -> bool {
    has_prefix(name, chunk_prefix_spec(rom_id, file_name)) || has_prefix(
        name,
        file_tag_spec(rom_id, file_name),
    )
}

/// The names among `names` that hold chunks of the given file, in order.
pub open spec fn chunk_files_of(names: Seq<Seq<char>>, rom_id: u64, file_name: Seq<char>) -> Seq<
    Seq<char>,
> {
    names.filter(|n: Seq<char>| is_chunk_file_of(n, rom_id, file_name))
}

proof fn lemma_decimal_injective(a: nat, b: nat)
    requires
        decimal(a) == decimal(b),
    ensures
        a == b,
    decreases a + b,
{
    if a < 10 && b < 10 {
        assert(decimal(a)[0] == digit_char(a));
        assert(decimal(b)[0] == digit_char(b));
        assert(decimal(a)[0] == decimal(b)[0]);
        assert(digit_char(a) as int == a + 48);
        assert(digit_char(b) as int == b + 48);
        assert(a == b);
    } else if a < 10 {
        assert(decimal(a).len() == 1);
        assert(decimal(b).len() == decimal(b / 10).len() + 1);
        assert(decimal(b / 10).len() > 0) by {
            reveal_with_fuel(decimal, 2);
            if b / 10 >= 10 {
                assert(decimal(b / 10).len() == decimal(b / 10 / 10).len() + 1);
            }
        }
    } else if b < 10 {
        assert(decimal(b).len() == 1);
        assert(decimal(a).len() == decimal(a / 10).len() + 1);
        assert(decimal(a / 10).len() > 0) by {
            reveal_with_fuel(decimal, 2);
            if a / 10 >= 10 {
                assert(decimal(a / 10).len() == decimal(a / 10 / 10).len() + 1);
            }
        }
    } else {
        assert(decimal(a).last() == digit_char(a % 10));
        assert(decimal(b).last() == digit_char(b % 10));
        assert(decimal(a).last() == decimal(b).last());
        assert(digit_char(a % 10) as int == a % 10 + 48);
        assert(digit_char(b % 10) as int == b % 10 + 48);
        assert(decimal(a).drop_last() =~= decimal(a / 10));
        assert(decimal(b).drop_last() =~= decimal(b / 10));
        lemma_decimal_injective(a / 10, b / 10);
        assert(a == 10 * (a / 10) + a % 10);
        assert(b == 10 * (b / 10) + b % 10);
        assert(a == b);
    }
}

/// Different chunks of one file are cached under different names.
pub proof fn law_chunk_keys_distinct(rom_id: u64, file_name: Seq<char>, i: u64, j: u64)
    requires
        i != j,
    ensures
        chunk_key_spec(rom_id, file_name, i) != chunk_key_spec(rom_id, file_name, j),
{
    let p = chunk_prefix_spec(rom_id, file_name);
    if chunk_key_spec(rom_id, file_name, i) == chunk_key_spec(rom_id, file_name, j) {
        assert((p + decimal(i as nat)).skip(p.len() as int) =~= decimal(i as nat));
        assert((p + decimal(j as nat)).skip(p.len() as int) =~= decimal(j as nat));
        lemma_decimal_injective(i as nat, j as nat);
    }
}

/// A name made of hexadecimal digits, a dot and anything after it starts
/// with another such name and a dot only when the two names are equal.
proof fn lemma_hex_before_dot(h1: Seq<char>, h2: Seq<char>, rest: Seq<char>)
    requires
        forall|i: int| 0 <= i < h1.len() ==> is_hex_digit_char(#[trigger] h1[i]),
        forall|i: int| 0 <= i < h2.len() ==> is_hex_digit_char(#[trigger] h2[i]),
        has_prefix(h2.push('.') + rest, h1.push('.')),
    ensures
        h1 == h2,
{
    let s = h2.push('.') + rest;
    let p = h1.push('.');
    assert(s.take(p.len() as int) == p);
    if h1.len() < h2.len() {
        assert(s[h1.len() as int] == p[h1.len() as int]);
        assert(s[h1.len() as int] == h2[h1.len() as int]);
        assert(is_hex_digit_char(h2[h1.len() as int]));
    } else if h1.len() > h2.len() {
        assert(s[h2.len() as int] == p[h2.len() as int]);
        assert(p[h2.len() as int] == h1[h2.len() as int]);
        assert(is_hex_digit_char(h1[h2.len() as int]));
    } else {
        assert forall|i: int| 0 <= i < h1.len() implies h1[i] == h2[i] by {
            assert(s[i] == p[i]);
        }
        assert(h1 =~= h2);
    }
}

/// Two chunk names are equal exactly when the digests of the two files'
/// tags are equal and so are the chunk numbers: a chunk name is determined
/// by the digest and the number, and determines both.
pub proof fn law_chunk_key_eq(
    rom_id: u64,
    file_name: Seq<char>,
    chunk_idx: u64,
    rom_id2: u64,
    file_name2: Seq<char>,
    chunk_idx2: u64,
)
    ensures
        chunk_key_spec(rom_id, file_name, chunk_idx) == chunk_key_spec(rom_id2, file_name2, chunk_idx2)
            <==> (sha256(file_tag_bytes(rom_id, file_name)) == sha256(
            file_tag_bytes(rom_id2, file_name2),
        ) && chunk_idx == chunk_idx2),
{
    let d1 = sha256(file_tag_bytes(rom_id, file_name));
    let d2 = sha256(file_tag_bytes(rom_id2, file_name2));
    let h1 = hex_lower(d1);
    let h2 = hex_lower(d2);
    let k1 = chunk_key_spec(rom_id, file_name, chunk_idx);
    let k2 = chunk_key_spec(rom_id2, file_name2, chunk_idx2);
    if k1 == k2 {
        lemma_hex_lower_digits(d1);
        lemma_hex_lower_digits(d2);
        assert(k1.take(h1.push('.').len() as int) =~= h1.push('.'));
        lemma_hex_before_dot(h1, h2, decimal(chunk_idx2 as nat));
        lemma_hex_lower_injective(d1, d2);
        assert(k1.skip(h1.len() as int + 1) =~= decimal(chunk_idx as nat));
        assert(k2.skip(h2.len() as int + 1) =~= decimal(chunk_idx2 as nat));
        lemma_decimal_injective(chunk_idx as nat, chunk_idx2 as nat);
    }
}

/// Different files of ROMs have different tags: the tag determines the ROM
/// id and the file name.
pub proof fn law_file_tags_distinct(rom_id: u64, file_name: Seq<char>, rom_id2: u64, file_name2: Seq<char>)
    ensures
        file_tag_bytes(rom_id, file_name) == file_tag_bytes(rom_id2, file_name2) <==> (rom_id
            == rom_id2 && file_name == file_name2),
{
    let a = decimal_bytes(rom_id as nat);
    let b = decimal_bytes(rom_id2 as nat);
    let t1 = file_tag_bytes(rom_id, file_name);
    let t2 = file_tag_bytes(rom_id2, file_name2);
    if t1 == t2 {
        lemma_decimal_digits(rom_id as nat);
        lemma_decimal_digits(rom_id2 as nat);
        let da = decimal(rom_id as nat);
        let db = decimal(rom_id2 as nat);
        if a.len() < b.len() {
            assert(t1[a.len() as int] == 58u8);
            assert(t2[a.len() as int] == b[a.len() as int]);
            assert(is_digit_char(db[a.len() as int]));
        } else if a.len() > b.len() {
            assert(t2[b.len() as int] == 58u8);
            assert(t1[b.len() as int] == a[b.len() as int]);
            assert(is_digit_char(da[b.len() as int]));
        } else {
            assert forall|i: int| 0 <= i < da.len() implies da[i] == db[i] by {
                assert(t1[i] == t2[i]);
                assert(is_digit_char(da[i]));
                assert(is_digit_char(db[i]));
                assert(da[i] as u8 == db[i] as u8);
            }
            assert(da =~= db);
            lemma_decimal_injective(rom_id as nat, rom_id2 as nat);
            assert(t1.skip(a.len() as int + 1) =~= vstd::utf8::encode_utf8(file_name));
            assert(t2.skip(b.len() as int + 1) =~= vstd::utf8::encode_utf8(file_name2));
            vstd::utf8::encode_utf8_decode_utf8(file_name);
            vstd::utf8::encode_utf8_decode_utf8(file_name2);
        }
    }
}

/// The entries a clean-up of one file's chunks selects, among the names
/// of chunks: a chunk name of any file is selected for `file_name` of
/// `rom_id` exactly when its file's tag has the same digest, so every
/// chunk of that file is selected and the chunks of a file whose digest
/// differs are kept.
pub proof fn law_stale_selects_chunks_of(
    rom_id: u64,
    file_name: Seq<char>,
    rom_id2: u64,
    file_name2: Seq<char>,
    chunk_idx: u64,
)
    ensures
        is_chunk_file_of(chunk_key_spec(rom_id2, file_name2, chunk_idx), rom_id, file_name) <==> sha256(
            file_tag_bytes(rom_id2, file_name2),
        ) == sha256(file_tag_bytes(rom_id, file_name)),
{
    let d = sha256(file_tag_bytes(rom_id, file_name));
    let d2 = sha256(file_tag_bytes(rom_id2, file_name2));
    let h = hex_lower(d);
    let h2 = hex_lower(d2);
    let key = chunk_key_spec(rom_id2, file_name2, chunk_idx);
    let dec = decimal(chunk_idx as nat);
    lemma_hex_lower_digits(d);
    lemma_hex_lower_digits(d2);
    lemma_decimal_digits(chunk_idx as nat);
    if d == d2 {
        assert(key.take(h.push('.').len() as int) =~= h.push('.'));
    } else {
        if has_prefix(key, chunk_prefix_spec(rom_id, file_name)) {
            lemma_hex_before_dot(h, h2, dec);
            lemma_hex_lower_injective(d, d2);
        }
        let tag = file_tag_spec(rom_id, file_name);
        let n = decimal(rom_id as nat).len() as int;
        if has_prefix(key, tag) {
            assert(tag[n] == ':');
            assert(key[n] == tag[n]);
            if n < h2.len() {
                assert(key[n] == h2[n]);
                assert(is_hex_digit_char(h2[n]));
            } else if n > h2.len() {
                assert(key[n] == dec[n - h2.len() - 1]);
                assert(is_digit_char(dec[n - h2.len() - 1]));
            }
        }
    }
}

proof fn lemma_filter_no_duplicates(s: Seq<Seq<char>>, p: spec_fn(Seq<char>) -> bool)
    requires
        s.no_duplicates(),
    ensures
        s.filter(p).no_duplicates(),
        forall|x: Seq<char>| s.filter(p).contains(x) ==> s.contains(x),
    decreases s.len(),
{
    reveal(Seq::filter);
    if s.len() > 0 {
        let d = s.drop_last();
        assert(d.no_duplicates());
        lemma_filter_no_duplicates(d, p);
        assert forall|x: Seq<char>| s.filter(p).contains(x) implies s.contains(x) by {
            if d.filter(p).contains(x) {
                assert(d.contains(x));
                let i = choose|i: int| 0 <= i < d.len() && d[i] == x;
                assert(s[i] == x);
            } else {
                assert(x == s.last());
                assert(s[s.len() - 1] == x);
            }
        }
        if p(s.last()) {
            assert(!d.contains(s.last()));
            let f = d.filter(p).push(s.last());
            assert forall|i: int, j: int| 0 <= i < f.len() && 0 <= j < f.len() && i != j implies f[i]
                != f[j] by {
                if j == f.len() - 1 && i < j {
                    assert(d.filter(p).contains(f[i]));
                } else if i == f.len() - 1 && j < i {
                    assert(d.filter(p).contains(f[j]));
                }
            }
        }
    }
}

/// Touching keeps every key in the order at most once.
pub proof fn law_touch_keeps_keys_distinct(order: Seq<Seq<char>>, key: Seq<char>)
    requires
        order.no_duplicates(),
    ensures
        touch_spec(order, key).no_duplicates(),
{
    broadcast use vstd::seq_lib::group_filter_ensures;

    lemma_filter_no_duplicates(order, other_than(key));
    let f = order.filter(other_than(key));
    let t = touch_spec(order, key);
    assert forall|i: int, j: int| 0 <= i < t.len() && 0 <= j < t.len() && i != j implies t[i] != t[j] by {
        if j == t.len() - 1 {
            assert(other_than(key)(f[i]));
        } else if i == t.len() - 1 {
            assert(other_than(key)(f[j]));
        }
    }
}

proof fn lemma_filter_all_pass(s: Seq<Seq<char>>, p: spec_fn(Seq<char>) -> bool)
    requires
        forall|i: int| 0 <= i < s.len() ==> p(#[trigger] s[i]),
    ensures
        s.filter(p) == s,
    decreases s.len(),
{
    reveal(Seq::filter);
    if s.len() > 0 {
        lemma_filter_all_pass(s.drop_last(), p);
        assert(s.drop_last().push(s.last()) =~= s);
    }
}

/// Touching a key twice leaves the same order as touching it once.
pub proof fn law_touch_idempotent(order: Seq<Seq<char>>, key: Seq<char>)
    ensures
        touch_spec(touch_spec(order, key), key) == touch_spec(order, key),
{
    broadcast use vstd::seq_lib::group_filter_ensures;

    let p = other_than(key);
    let f = order.filter(p);
    reveal(Seq::filter);
    assert(f.push(key).drop_last() =~= f);
    assert forall|i: int| 0 <= i < f.len() implies p(#[trigger] f[i]) by {}
    lemma_filter_all_pass(f, p);
    assert(f.push(key).filter(p) == f);
}

/// A touched key becomes the most recently used one and occurs nowhere
/// else in the order.
pub proof fn law_touch_makes_most_recent(order: Seq<Seq<char>>, key: Seq<char>)
    ensures
        touch_spec(order, key).last() == key,
        forall|i: int| 0 <= i < touch_spec(order, key).len() - 1 ==> touch_spec(order, key)[i] != key,
{
    broadcast use vstd::seq_lib::group_filter_ensures;

    let pred = other_than(key);
    assert forall|i: int| 0 <= i < touch_spec(order, key).len() - 1 implies touch_spec(order, key)[i] != key by {
        assert(touch_spec(order, key)[i] == order.filter(pred)[i]);
        assert(pred(order.filter(pred)[i]));
    }
}

/// After an eviction fewer keys than the bound remain (when the bound is
/// positive), and nothing is evicted while there are fewer.
pub proof fn law_eviction_bound(order: Seq<Seq<char>>, max: nat)
    ensures
        max > 0 ==> order.skip(evict_count(order.len(), max) as int).len() < max
            || order.len() < max,
        order.len() < max ==> evict_count(order.len(), max) == 0,
{
}

/// Eviction keeps the newest keys and drops just enough of the oldest:
/// below the bound nothing goes; at or above a bound `max > 0` exactly
/// `max - 1` keys stay; a bound of zero drops every key.
pub proof fn law_eviction_leaves_newest(order: Seq<Seq<char>>, max: nat)
    ensures
        evict_count(order.len(), max) <= order.len(),
        order.len() < max ==> evict_count(order.len(), max) == 0,
        max > 0 && order.len() >= max ==> order.len() - evict_count(order.len(), max) == max - 1,
        max == 0 ==> evict_count(order.len(), max) == order.len(),
{
}

/// Touching a key puts it last and leaves the other keys in their order:
/// a key not yet tracked is appended, and a key tracked once is moved from
/// its place to the end.
pub proof fn law_touch_moves_to_end(a: Seq<Seq<char>>, key: Seq<char>, b: Seq<Seq<char>>)
    requires
        !a.contains(key),
        !b.contains(key),
    ensures
        touch_spec(a, key) == a.push(key),
        touch_spec(a.push(key) + b, key) == a + b.push(key),
{
    reveal(Seq::filter);
    lemma_filter_all_pass(a, other_than(key));
    lemma_filter_all_pass(b, other_than(key));
    let p = other_than(key);
    Seq::filter_distributes_over_add(a.push(key), b, p);
    Seq::filter_distributes_over_add(a, seq![key], p);
    assert(a.push(key) =~= a + seq![key]);
    assert(seq![key].filter(p) =~= Seq::<Seq<char>>::empty()) by {
        reveal(Seq::filter);
        let one = seq![key];
        assert(one.drop_last() =~= Seq::<Seq<char>>::empty());
        assert(Seq::<Seq<char>>::empty().filter(p) =~= Seq::<Seq<char>>::empty());
        assert(!p(one.last()));
        assert(one.filter(p) == one.drop_last().filter(p));
    }
    assert(a + Seq::<Seq<char>>::empty() =~= a);
}

/// With a bound of at least two, the chunk just touched survives the
/// eviction that follows it.
pub proof fn law_touched_survives_eviction(order: Seq<Seq<char>>, key: Seq<char>, max: nat)
    requires
        max >= 2,
    ensures
        ({
            let t = touch_spec(order, key);
            let rest = t.skip(evict_count(t.len(), max) as int);
            rest.len() > 0 && rest.last() == key
        }),
{
}

/// The chunks' contents as byte sequences.
pub open spec fn chunk_views(chunks: Seq<Vec<u8>>) -> Seq<Seq<u8>> {
    chunks.map_values(|c: Vec<u8>| c@)
}

/// What a cache is configured with and what its LRU tracker holds.
pub struct CacheView {
    pub dir: Seq<char>,
    pub ttl_secs: u64,
    pub chunk_size: u64,
    pub lru: LruView,
    pub max_cached_chunks: nat,
}

/// How many chunks the LRU tracker of a new cache keeps.
pub const MAX_CACHED_CHUNKS: usize = 10000;

/// The chunk cache of one mount: where chunk files live, how long they stay
/// valid, how large a chunk is, and the order they were last used in.
pub struct Cache {
    dir: String,
    ttl_secs: u64,
    chunk_size: u64,
    lru: LruTracker,
    max_cached_chunks: usize,
}

impl View for Cache {
    type V = CacheView;

    closed spec fn view(&self) -> CacheView {
        CacheView {
            dir: self.dir@,
            ttl_secs: self.ttl_secs,
            chunk_size: self.chunk_size,
            lru: self.lru@,
            max_cached_chunks: self.max_cached_chunks as nat,
        }
    }
}

impl Cache {
    /// A cache rooted at `dir` with nothing tracked yet.
    pub fn new(dir: &str, ttl_secs: u64, chunk_size: u64) -> (c: Self)
        ensures
            c@.dir == dir@,
            c@.ttl_secs == ttl_secs,
            c@.chunk_size == chunk_size,
            c@.lru.order == Seq::<Seq<char>>::empty(),
            c@.lru.max_entries == MAX_CACHED_CHUNKS,
            c@.max_cached_chunks == MAX_CACHED_CHUNKS,
    {
        Cache {
            dir: dir.to_owned(),
            ttl_secs,
            chunk_size,
            lru: LruTracker::new(MAX_CACHED_CHUNKS),
            max_cached_chunks: MAX_CACHED_CHUNKS,
        }
    }

    /// The directory the chunk files live in.
    pub fn dir_for_statfs(&self) -> (d: &str)
        ensures
            d@ == self@.dir,
    {
        self.dir.as_str()
    }

    /// The size of one chunk in bytes.
    pub fn chunk_size(&self) -> (n: u64)
        ensures
            n == self@.chunk_size,
    {
        self.chunk_size
    }

    /// How long, in seconds, a chunk file stays valid.
    pub fn ttl_secs(&self) -> (n: u64)
        ensures
            n == self@.ttl_secs,
    {
        self.ttl_secs
    }

    /// The path of the file that holds chunk `chunk_idx` of a file.
    pub fn chunk_path(&self, rom_id: u64, file_name: &str, chunk_idx: u64) -> (p: String)
        ensures
            p@ == join_spec(self@.dir, chunk_key_spec(rom_id, file_name@, chunk_idx)),
    {
        let key = chunk_key(rom_id, file_name, chunk_idx);
        join(self.dir.as_str(), key.as_str())
    }

    /// Whether a chunk file of the given age (seconds and nanoseconds) is
    /// still valid: its age is at most the time to live.
    pub fn is_fresh(&self, age_secs: u64, age_nanos: u32) -> (r: bool)
        requires
            age_nanos < 1_000_000_000,
        ensures
            r == (age_secs * 1_000_000_000 + age_nanos <= self@.ttl_secs * 1_000_000_000),
    {
        age_secs < self.ttl_secs || (age_secs == self.ttl_secs && age_nanos == 0)
    }

    /// Marks the chunk file `key` as the most recently used.
    pub fn touch_lru(&mut self, key: &str)
        ensures
            final(self)@ == (CacheView {
                lru: LruView {
                    order: touch_spec(old(self)@.lru.order, key@),
                    ..old(self)@.lru
                },
                ..old(self)@
            }),
    {
        self.lru.touch(key);
    }

    /// Drops the least recently used chunks beyond the tracker's bound and
    /// returns the paths of their files, oldest first, for the caller to
    /// delete.
    pub fn evict_if_needed(&mut self) -> (paths: Vec<String>)
        ensures
            ({
                let n = evict_count(old(self)@.lru.order.len(), old(self)@.lru.max_entries);
                &&& final(self)@ == (CacheView {
                    lru: LruView { order: old(self)@.lru.order.skip(n as int), ..old(self)@.lru },
                    ..old(self)@
                })
                &&& paths@.len() == n
                &&& forall|i: int|
                    0 <= i < n ==> (#[trigger] paths@[i])@ == join_spec(
                        old(self)@.dir,
                        old(self)@.lru.order[i],
                    )
            }),
    {
        let keys = self.lru.evict_oldest();
        let mut paths: Vec<String> = Vec::new();
        let mut i: usize = 0;
        while i < keys.len()
            invariant
                i <= keys@.len(),
                paths@.len() == i,
                forall|j: int|
                    0 <= j < i ==> (#[trigger] paths@[j])@ == join_spec(self.dir@, keys@[j]@),
            decreases keys@.len() - i,
        {
            paths.push(join(self.dir.as_str(), keys[i].as_str()));
            i = i + 1;
        }
        proof {
            let n = evict_count(old(self)@.lru.order.len(), old(self)@.lru.max_entries);
            assert(keys@.map_values(|s: String| s@).len() == keys@.len());
            assert(keys@.len() == n);
            assert forall|j: int| 0 <= j < n implies (#[trigger] paths@[j])@ == join_spec(
                old(self)@.dir,
                old(self)@.lru.order[j],
            ) by {
                assert(keys@.map_values(|s: String| s@)[j] == keys@[j]@);
            }
            assert(self@.lru =~= LruView {
                order: old(self)@.lru.order.skip(n as int),
                ..old(self)@.lru
            });
        }
        paths
    }

    /// How many chunks a file of `file_size` bytes spans.
    pub fn chunk_count(&self, file_size: u64) -> (n: u64)
        requires
            self@.chunk_size > 0,
        ensures
            n == (file_size + self@.chunk_size - 1) / (self@.chunk_size as int),
    {
        let cs = self.chunk_size;
        let q = file_size / cs;
        let r = file_size % cs;
        proof {
            vstd::arithmetic::div_mod::lemma_fundamental_div_mod(file_size as int, cs as int);
            assert(file_size == q * cs + r) by (nonlinear_arith)
                requires
                    file_size == cs * q + r,
            ;
            if r == 0 {
                vstd::arithmetic::div_mod::lemma_fundamental_div_mod_converse(
                    file_size + cs - 1,
                    cs as int,
                    q as int,
                    cs - 1,
                );
            } else {
                assert(q < u64::MAX && file_size + cs - 1 == (q + 1) * cs + (r - 1)) by (nonlinear_arith)
                    requires
                        file_size == q * cs + r,
                        1 <= r < cs,
                        file_size <= u64::MAX,
                ;
                vstd::arithmetic::div_mod::lemma_fundamental_div_mod_converse(
                    file_size + cs - 1,
                    cs as int,
                    q + 1,
                    r - 1,
                );
            }
        }
        if r != 0 {
            q + 1
        } else {
            q
        }
    }

    /// The paths of the entries among `names` (the file names found in the
    /// cache directory) that hold chunks of file `file_name` of ROM
    /// `rom_id`, for the caller to delete.
    pub fn stale_chunk_files(&self, rom_id: u64, file_name: &str, names: &[String]) -> (paths: Vec<
        String,
    >)
        ensures
            ({
                let kept = chunk_files_of(
                    names@.map_values(|s: String| s@),
                    rom_id,
                    file_name@,
                );
                &&& paths@.len() == kept.len()
                &&& forall|i: int|
                    0 <= i < kept.len() ==> (#[trigger] paths@[i])@ == join_spec(self@.dir, kept[i])
            }),
    {
        let prefix = chunk_prefix(rom_id, file_name);
        let mut tag = String::new();
        push_decimal(&mut tag, rom_id);
        push_char(&mut tag, ':');
        push_str(&mut tag, file_name);
        proof {
            assert(tag@ =~= file_tag_spec(rom_id, file_name@));
        }
        let ghost pred = |n: Seq<char>| is_chunk_file_of(n, rom_id, file_name@);
        let ghost all = names@.map_values(|s: String| s@);
        let mut paths: Vec<String> = Vec::new();
        let mut i: usize = 0;
        while i < names.len()
            invariant
                pred == (|n: Seq<char>| is_chunk_file_of(n, rom_id, file_name@)),
                all == names@.map_values(|s: String| s@),
                prefix@ == chunk_prefix_spec(rom_id, file_name@),
                tag@ == file_tag_spec(rom_id, file_name@),
                i <= names@.len(),
                paths@.len() == all.take(i as int).filter(pred).len(),
                forall|j: int|
                    0 <= j < paths@.len() ==> (#[trigger] paths@[j])@ == join_spec(
                        self@.dir,
                        all.take(i as int).filter(pred)[j],
                    ),
            decreases names@.len() - i,
        {
            let name = names[i].as_str();
            let hit = starts_with(name, prefix.as_str()) || starts_with(name, tag.as_str());
            proof {
                reveal(Seq::filter);
                let t = all.take(i + 1);
                assert(t.drop_last() =~= all.take(i as int));
                assert(t.last() == name@);
                assert(hit == pred(t.last()));
            }
            if hit {
                paths.push(join(self.dir.as_str(), name));
            }
            i = i + 1;
        }
        proof {
            assert(all.take(i as int) =~= all);
        }
        paths
    }

    /// The first and last byte (inclusive) that a request for chunk
    /// `chunk_idx` asks the server for.
    pub fn chunk_bounds(&self, chunk_idx: u64) -> (r: (u64, u64))
        requires
            self@.chunk_size > 0,
            chunk_idx * self@.chunk_size + self@.chunk_size - 1 <= u64::MAX,
        ensures
            r.0 == chunk_idx * self@.chunk_size,
            r.1 == chunk_idx * self@.chunk_size + self@.chunk_size - 1,
    {
        let start = chunk_idx * self.chunk_size;
        (start, start + (self.chunk_size - 1))
    }

    /// The first and last chunk a read of `size` bytes at `offset` from a
    /// file of `file_size` bytes touches; `None` when there is nothing to read.
    pub fn read_plan(&self, file_size: u64, offset: u64, size: u32) -> (r: Option<(u64, u64)>)
        requires
            self@.chunk_size > 0 || offset >= range_end(file_size, offset, size),
        ensures
            r == read_plan_spec(self@.chunk_size, file_size, offset, size),
    {
        let end = offset.saturating_add(size as u64);
        let end = if end < file_size {
            end
        } else {
            file_size
        };
        if offset >= end {
            None
        } else {
            Some((offset / self.chunk_size, (end - 1) / self.chunk_size))
        }
    }

    /// The chunk data to cache and use from a successful reply to the
    /// range request for chunk `chunk_idx`: a whole-file reply is cut down
    /// to the chunk's slot, a partial reply is taken as it is.
    pub fn chunk_from_reply(&self, chunk_idx: u64, reply: &RangeReply, body: Vec<u8>) -> (data: Vec<
        u8,
    >)
        requires
            !(reply is Failed),
            chunk_idx * self@.chunk_size + self@.chunk_size <= u64::MAX + 1,
        ensures
            data@ == reply_chunk(
                self@.chunk_size as int,
                chunk_idx as int,
                reply is Whole,
                body@,
            ),
    {
        match reply {
            RangeReply::Whole => {
                proof {
                    let cs = self.chunk_size;
                    assert(chunk_idx * cs <= u64::MAX) by (nonlinear_arith)
                        requires
                            chunk_idx * cs + cs <= u64::MAX + 1,
                            cs >= 0,
                    ;
                }
                let start = chunk_idx * self.chunk_size;
                let len = body.len() as u64;
                let mut data: Vec<u8> = Vec::new();
                if start < len {
                    let stop = if len - start < self.chunk_size {
                        len
                    } else {
                        start + self.chunk_size
                    };
                    let mut j: usize = start as usize;
                    while j < stop as usize
                        invariant
                            start <= j <= stop,
                            stop <= body@.len(),
                            data@ == body@.subrange(start as int, j as int),
                        decreases stop - j,
                    {
                        data.push(body[j]);
                        proof {
                            assert(body@.subrange(start as int, j + 1) =~= body@.subrange(
                                start as int,
                                j as int,
                            ).push(body@[j as int]));
                        }
                        j = j + 1;
                    }
                }
                proof {
                    if start >= len {
                        assert(data@ =~= Seq::<u8>::empty());
                    }
                }
                data
            },
            _ => body,
        }
    }

    /// The bytes a read of `size` bytes at `offset` returns, given the data
    /// of each chunk of its plan, in order: from each chunk, the part of its
    /// slot that lies in the window.
    pub fn assemble_range(&self, file_size: u64, offset: u64, size: u32, chunks: &[Vec<u8>]) -> (out:
        Vec<u8>)
        requires
            read_plan_spec(self@.chunk_size, file_size, offset, size) is Some,
            self@.chunk_size > 0,
            chunks@.len() == read_plan_spec(self@.chunk_size, file_size, offset, size).unwrap().1
                - read_plan_spec(self@.chunk_size, file_size, offset, size).unwrap().0 + 1,
        ensures
            out@ == assembled(
                self@.chunk_size as int,
                offset as int,
                range_end(file_size, offset, size),
                read_plan_spec(self@.chunk_size, file_size, offset, size).unwrap().0 as int,
                chunk_views(chunks@),
            ),
    {
        let cs = self.chunk_size;
        let plan = self.read_plan(file_size, offset, size);
        let (first, last) = match plan {
            Some(p) => p,
            None => {
                return Vec::new();
            },
        };
        let end = offset.saturating_add(size as u64);
        let end = if end < file_size {
            end
        } else {
            file_size
        };
        let ghost views = chunk_views(chunks@);
        proof {
            vstd::arithmetic::div_mod::lemma_fundamental_div_mod(end - 1, cs as int);
            assert(last * cs <= end - 1) by (nonlinear_arith)
                requires
                    end - 1 == cs * last + (end - 1) % (cs as int),
                    0 <= (end - 1) % (cs as int),
            ;
        }
        let mut out: Vec<u8> = Vec::new();
        let mut k: usize = 0;
        while k < chunks.len()
            invariant
                cs > 0,
                cs == self@.chunk_size,
                end == range_end(file_size, offset, size),
                chunks@.len() == last - first + 1,
                last * cs <= end - 1,
                views == chunk_views(chunks@),
                k <= chunks@.len(),
                out@ == assembled(cs as int, offset as int, end as int, first as int, views.take(k as int)),
            decreases chunks@.len() - k,
        {
            let idx = first + k as u64;
            proof {
                assert(idx * cs <= last * cs) by (nonlinear_arith)
                    requires
                        idx <= last,
                ;
            }
            let start = idx * cs;
            let data = &chunks[k];
            let len = data.len() as u64;
            let from: u64 = if start < offset {
                offset - start
            } else {
                0
            };
            let room = if end - start < cs {
                end - start
            } else {
                cs
            };
            let to = if room < len {
                room
            } else {
                len
            };
            if from < to {
                let mut j: usize = from as usize;
                while j < to as usize
                    invariant
                        from <= j <= to,
                        to <= data@.len(),
                        out@ == assembled(
                            cs as int,
                            offset as int,
                            end as int,
                            first as int,
                            views.take(k as int),
                        ) + data@.subrange(from as int, j as int),
                    decreases to - j,
                {
                    out.push(data[j]);
                    proof {
                        assert(data@.subrange(from as int, j + 1) =~= data@.subrange(
                            from as int,
                            j as int,
                        ).push(data@[j as int]));
                    }
                    j = j + 1;
                }
            }
            proof {
                assert(views.take(k + 1).drop_last() =~= views.take(k as int));
                assert(views[k as int] == data@);
                assert(out@ =~= assembled(
                    cs as int,
                    offset as int,
                    end as int,
                    first as int,
                    views.take(k + 1),
                ));
            }
            k = k + 1;
        }
        proof {
            assert(views.take(k as int) =~= views);
        }
        out
    }
}

} // verus!
