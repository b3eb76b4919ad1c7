//! The AN3155 wire format, as mathematics.
//!
//! Spec functions here say exactly which bytes each request puts on the wire:
//! command preambles, big-endian addresses with their XOR checksum, length
//! bytes, checksummed payloads, and the per-block transactions a chunked
//! memory range turns into. The engine's contracts are stated over them.

use vstd::prelude::*;

use crate::protocol::Command;
use crate::protocol::UART_ACK;

verus! {

/// Block size the chunker uses for memory ranges. Safely below the 256-byte
/// MTU and aligned with common flash row sizes.
pub const CHUNK_SIZE: usize = 128;

/// XOR of all bytes of `s`; 0 for the empty sequence.
pub open spec fn xor_all(s: Seq<u8>) -> u8
    decreases s.len(),
{
    if s.len() == 0 {
        0u8
    } else {
        xor_all(s.drop_last()) ^ s.last()
    }
}

/// The XOR of four bytes, folded in order.
pub proof fn lemma_xor4(x: u8, y: u8, z: u8, w: u8)
    ensures
        xor_all(seq![x, y, z, w]) == ((x ^ y) ^ z) ^ w,
{
    reveal_with_fuel(xor_all, 5);
    let s = seq![x, y, z, w];
    assert(s.drop_last() =~= seq![x, y, z]);
    assert(seq![x, y, z].drop_last() =~= seq![x, y]);
    assert(seq![x, y].drop_last() =~= seq![x]);
    assert(seq![x].drop_last() =~= Seq::<u8>::empty());
    assert(0u8 ^ x == x) by (bit_vector);
}

/// The two-byte command preamble: the opcode and its complement.
pub open spec fn cmd_frame(c: Command) -> Seq<u8> {
    seq![c.spec_opcode(), !c.spec_opcode()]
}

/// The four big-endian bytes of a 32-bit address, most significant first.
pub open spec fn addr_bytes(a: u32) -> Seq<u8> {
    seq![
        ((a >> 24) & 0xFF) as u8,
        ((a >> 16) & 0xFF) as u8,
        ((a >> 8) & 0xFF) as u8,
        (a & 0xFF) as u8,
    ]
}

/// The address bytes followed by their XOR checksum.
pub open spec fn addr_frame(a: u32) -> Seq<u8> {
    addr_bytes(a).push(xor_all(addr_bytes(a)))
}

/// A payload followed by the XOR checksum over all its bytes.
pub open spec fn csum_frame(data: Seq<u8>) -> Seq<u8> {
    data.push(xor_all(data))
}

/// Everything one block read request of `n` bytes puts on the wire:
/// preamble, address frame, then `n - 1` and its complement.
pub open spec fn read_block_tx(addr: u32, n: nat) -> Seq<u8> {
    cmd_frame(Command::ReadMemory) + addr_frame(addr)
        + seq![(n - 1) as u8, !((n - 1) as u8)]
}

/// Everything one block write of `data` puts on the wire: preamble, address
/// frame, then `|data| - 1` and the data, checksummed together.
pub open spec fn write_block_tx(addr: u32, data: Seq<u8>) -> Seq<u8> {
    cmd_frame(Command::WriteMemory) + addr_frame(addr)
        + csum_frame(seq![(data.len() - 1) as u8] + data)
}

/// How many blocks a range of `len` bytes is chunked into.
pub open spec fn num_chunks(len: nat) -> nat {
    ((len + (CHUNK_SIZE - 1) as nat) / (CHUNK_SIZE as nat)) as nat
}

/// The per-block transactions of a range read, in order.
pub open spec fn read_txns(addr: u32, len: nat) -> Seq<Seq<u8>>
    decreases len,
{
    if len == 0 {
        seq![]
    } else if len <= CHUNK_SIZE {
        seq![read_block_tx(addr, len)]
    } else {
        seq![read_block_tx(addr, CHUNK_SIZE as nat)]
            + read_txns(((addr + CHUNK_SIZE) as u32), (len - CHUNK_SIZE) as nat)
    }
}

/// The chunks a range write splits its data into, in order.
pub open spec fn chunks(data: Seq<u8>) -> Seq<Seq<u8>>
    decreases data.len(),
{
    if data.len() == 0 {
        seq![]
    } else if data.len() <= CHUNK_SIZE {
        seq![data]
    } else {
        seq![data.take(CHUNK_SIZE as int)] + chunks(data.skip(CHUNK_SIZE as int))
    }
}

/// The per-block transactions of a range write, in order.
pub open spec fn write_txns(addr: u32, data: Seq<u8>) -> Seq<Seq<u8>>
    decreases data.len(),
{
    if data.len() == 0 {
        seq![]
    } else if data.len() <= CHUNK_SIZE {
        seq![write_block_tx(addr, data)]
    } else {
        seq![write_block_tx(addr, data.take(CHUNK_SIZE as int))]
            + write_txns(((addr + CHUNK_SIZE) as u32), data.skip(CHUNK_SIZE as int))
    }
}

/// The response stream a faithful bootloader answers a chunked range read
/// with, given the memory content `data` of the range: per block, the three
/// acknowledgements and then the block's bytes.
pub open spec fn read_resp(data: Seq<u8>) -> Seq<u8>
    decreases data.len(),
{
    if data.len() == 0 {
        seq![]
    } else if data.len() <= CHUNK_SIZE {
        seq![UART_ACK, UART_ACK, UART_ACK] + data
    } else {
        seq![UART_ACK, UART_ACK, UART_ACK] + data.take(CHUNK_SIZE as int)
            + read_resp(data.skip(CHUNK_SIZE as int))
    }
}

/// A range's response stream is at least as long as the range.
pub proof fn lemma_read_resp_len(data: Seq<u8>)
    ensures
        read_resp(data).len() >= data.len(),
    decreases data.len(),
{
    if data.len() > CHUNK_SIZE {
        lemma_read_resp_len(data.skip(CHUNK_SIZE as int));
    }
}

/// The transactions of a sequence, concatenated in order.
pub open spec fn concat_txns(txns: Seq<Seq<u8>>) -> Seq<u8>
    decreases txns.len(),
{
    if txns.len() == 0 {
        seq![]
    } else {
        txns.first() + concat_txns(txns.drop_first())
    }
}

/// Concatenation peels its first transaction.
pub proof fn lemma_concat_cons(x: Seq<u8>, rest: Seq<Seq<u8>>)
    ensures
        concat_txns(seq![x] + rest) == x + concat_txns(rest),
{
    assert((seq![x] + rest).first() == x);
    assert((seq![x] + rest).drop_first() =~= rest);
}

/// Extending a chunk-aligned prefix of a range by one more chunk appends
/// that chunk's three acknowledgements and bytes to the response stream.
pub proof fn lemma_read_resp_snoc(data: Seq<u8>, i: int)
    requires
        0 <= i < data.len(),
        i % (CHUNK_SIZE as int) == 0,
    ensures
        ({
            let c = if data.len() - i < CHUNK_SIZE {
                data.len() as int - i
            } else {
                CHUNK_SIZE as int
            };
            read_resp(data.take(i + c)) == read_resp(data.take(i))
                + seq![UART_ACK, UART_ACK, UART_ACK] + data.subrange(i, i + c)
        }),
    decreases i,
{
    let cs = CHUNK_SIZE as int;
    let len = data.len() as int;
    let c = if len - i < cs {
        len - i
    } else {
        cs
    };
    let aaa = seq![UART_ACK, UART_ACK, UART_ACK];
    if i == 0 {
        assert(data.take(0) =~= Seq::<u8>::empty());
        assert(read_resp(data.take(0)) == Seq::<u8>::empty());
        let t = data.take(c);
        assert(t.len() == c <= cs);
        assert(read_resp(t) == aaa + t);
        assert(t =~= data.subrange(0, c));
        assert(read_resp(data.take(0)) + aaa + data.subrange(0, c) =~= aaa + t);
    } else {
        assert(i >= cs);
        let rest = data.skip(cs);
        lemma_read_resp_snoc(rest, i - cs);
        let u = data.take(i + c);
        assert(u.len() == i + c > cs);
        assert(u.take(cs) =~= data.take(cs));
        assert(u.skip(cs) =~= rest.take(i - cs + c));
        assert(read_resp(u) == aaa + u.take(cs) + read_resp(u.skip(cs)));
        assert(rest.subrange(i - cs, i - cs + c) =~= data.subrange(i, i + c));
        let v = data.take(i);
        if i == cs {
            assert(v.len() == cs);
            assert(read_resp(v) == aaa + v);
            assert(v =~= data.take(cs));
            assert(rest.take(0) =~= Seq::<u8>::empty());
            assert(read_resp(rest.take(0)) == Seq::<u8>::empty());
            assert(aaa + data.take(cs)
                + (read_resp(rest.take(0)) + aaa + rest.subrange(0, c))
                =~= read_resp(v) + aaa + data.subrange(i, i + c));
        } else {
            assert(v.len() == i > cs);
            assert(v.take(cs) =~= data.take(cs));
            assert(v.skip(cs) =~= rest.take(i - cs));
            assert(read_resp(v) == aaa + v.take(cs) + read_resp(v.skip(cs)));
            assert(aaa + data.take(cs)
                + (read_resp(rest.take(i - cs)) + aaa + rest.subrange(i - cs, i - cs + c))
                =~= read_resp(v) + aaa + data.subrange(i, i + c));
        }
    }
}

/// The two big-endian bytes of a 16-bit word, most significant first.
pub open spec fn be16(x: u16) -> Seq<u8> {
    seq![((x >> 8) & 0xFF) as u8, (x & 0xFF) as u8]
}

/// The two-byte page indices of an extended erase, in order.
pub open spec fn ext_pages_bytes(pages: Seq<u16>) -> Seq<u8>
    decreases pages.len(),
{
    if pages.len() == 0 {
        seq![]
    } else {
        ext_pages_bytes(pages.drop_last()) + be16(pages.last())
    }
}

/// The page numbers of a selective erase over the half-open range
/// `[offset, offset + count)`.
pub open spec fn page_list(offset: u8, count: u8) -> Seq<u8> {
    Seq::new(count as nat, |i| (offset + i) as u8)
}

/// `n` acknowledgement bytes.
pub open spec fn acks(n: nat) -> Seq<u8> {
    Seq::new(n, |i| UART_ACK)
}

/// `post` extends `pre` by nothing but a prefix of `plan`: every byte
/// beyond `pre` agrees with `plan`, in order, and no more than `plan` went
/// out. This is what an exchange that aborts at the point of detection
/// leaves on the wire.
pub open spec fn emitted_prefix(pre: Seq<u8>, post: Seq<u8>, plan: Seq<u8>) -> bool {
    &&& pre.len() <= post.len() <= pre.len() + plan.len()
    &&& forall|i: int| 0 <= i < post.len() ==> #[trigger] post[i] == (pre + plan)[i]
}

/// Extending `pre` by the first `k` planned bytes emits within the plan.
pub proof fn lemma_emitted_exact(pre: Seq<u8>, plan: Seq<u8>, k: int)
    requires
        0 <= k <= plan.len(),
    ensures
        emitted_prefix(pre, pre + plan.take(k), plan),
{
    let post = pre + plan.take(k);
    assert forall|i: int| 0 <= i < post.len() implies #[trigger] post[i] == (pre + plan)[i] by {
        if i >= pre.len() {
            assert(post[i] == plan.take(k)[i - pre.len()]);
        }
    };
}

/// Emitting within one stage of a staged plan emits within the whole plan:
/// after the `done` stages went out whole, what stays within `stage` stays
/// within `done + stage + rest`.
pub proof fn lemma_emitted_stage(
    pre: Seq<u8>,
    post: Seq<u8>,
    done: Seq<u8>,
    stage: Seq<u8>,
    rest: Seq<u8>,
)
    requires
        emitted_prefix(pre + done, post, stage),
    ensures
        emitted_prefix(pre, post, done + stage + rest),
{
    let plan = done + stage + rest;
    let mid = pre + done;
    assert forall|i: int| 0 <= i < post.len() implies #[trigger] post[i] == (pre + plan)[i] by {
        assert(post[i] == (mid + stage)[i]);
        if i < mid.len() {
            if i < pre.len() {
                assert((pre + plan)[i] == pre[i]);
            } else {
                assert((pre + plan)[i] == plan[i - pre.len()]);
                assert(plan[i - pre.len()] == done[i - pre.len()]);
            }
        } else {
            assert(post[i] == stage[i - mid.len()]);
            assert((pre + plan)[i] == plan[i - pre.len()]);
            assert(plan[i - pre.len()] == stage[i - pre.len() - done.len()]);
        }
    };
}

/// The command preamble is the opcode followed by the opcode XORed with
/// `0xFF`: complementing a byte and XORing it with `0xFF` are the same.
pub proof fn lemma_cmd_frame_xor(c: Command)
    ensures
        cmd_frame(c) == seq![c.spec_opcode(), c.spec_opcode() ^ 0xFF],
{
    let op = c.spec_opcode();
    assert(!op == op ^ 0xFF) by (bit_vector);
    assert(cmd_frame(c) =~= seq![op, op ^ 0xFF]);
}

/// A chunked range read of `len` bytes makes exactly `ceil(len / 128)`
/// block transactions, block `k` requesting `min(128, len - 128 * k)`
/// bytes at the running address `addr + 128 * k`.
pub proof fn lemma_read_txns_blocks(addr: u32, len: nat)
    requires
        addr + len <= 0x1_0000_0000,
    ensures
        read_txns(addr, len).len() == num_chunks(len),
        forall|k: int| 0 <= k < num_chunks(len)
            ==> #[trigger] read_txns(addr, len)[k] == read_block_tx(
                (addr + CHUNK_SIZE * k) as u32,
                (if len - CHUNK_SIZE * k < CHUNK_SIZE {
                    len - CHUNK_SIZE * k
                } else {
                    CHUNK_SIZE as int
                }) as nat,
            ),
    decreases len,
{
    let cs = CHUNK_SIZE as int;
    if len == 0 {
    } else if len <= CHUNK_SIZE {
        assert(num_chunks(len) == 1);
        assert(read_txns(addr, len)[0] == read_block_tx(addr, len));
        assert((addr + cs * 0) as u32 == addr);
    } else {
        let tail = read_txns((addr + CHUNK_SIZE) as u32, (len - CHUNK_SIZE) as nat);
        lemma_read_txns_blocks((addr + CHUNK_SIZE) as u32, (len - CHUNK_SIZE) as nat);
        assert(num_chunks(len) == 1 + num_chunks((len - CHUNK_SIZE) as nat));
        assert forall|k: int| 0 <= k < num_chunks(len) implies
            #[trigger] read_txns(addr, len)[k] == read_block_tx(
                (addr + cs * k) as u32,
                (if len - cs * k < cs {
                    len - cs * k
                } else {
                    cs
                }) as nat,
            ) by {
            if k == 0 {
                assert(read_txns(addr, len)[0] == read_block_tx(addr, CHUNK_SIZE as nat));
                assert((addr + cs * 0) as u32 == addr);
            } else {
                assert(read_txns(addr, len)[k] == tail[k - 1]);
                assert(tail[k - 1] == read_block_tx(
                    (((addr + cs) as u32) + cs * (k - 1)) as u32,
                    (if (len - cs) - cs * (k - 1) < cs {
                        (len - cs) - cs * (k - 1)
                    } else {
                        cs
                    }) as nat,
                ));
                assert((((addr + cs) as u32) + cs * (k - 1)) as u32 == (addr + cs * k) as u32);
            }
        };
    }
}

/// A chunked range write of `data` makes exactly `ceil(|data| / 128)`
/// block transactions, block `k` carrying the bytes
/// `data[128 * k .. min(128 * (k + 1), |data|)]` at the running address
/// `addr + 128 * k`.
pub proof fn lemma_write_txns_blocks(addr: u32, data: Seq<u8>)
    requires
        addr + data.len() <= 0x1_0000_0000,
    ensures
        write_txns(addr, data).len() == num_chunks(data.len()),
        chunks(data).len() == num_chunks(data.len()),
        forall|k: int| 0 <= k < num_chunks(data.len())
            ==> #[trigger] chunks(data)[k] == data.subrange(
                CHUNK_SIZE * k,
                (if data.len() - CHUNK_SIZE * k < CHUNK_SIZE {
                    data.len() as int
                } else {
                    CHUNK_SIZE * k + CHUNK_SIZE
                }),
            ),
        forall|k: int| 0 <= k < num_chunks(data.len())
            ==> #[trigger] write_txns(addr, data)[k] == write_block_tx(
                (addr + CHUNK_SIZE * k) as u32,
                chunks(data)[k],
            ),
    decreases data.len(),
{
    let cs = CHUNK_SIZE as int;
    let len = data.len() as int;
    if data.len() == 0 {
    } else if data.len() <= CHUNK_SIZE {
        assert(num_chunks(data.len()) == 1);
        assert(chunks(data)[0] == data);
        assert(data.subrange(0, len) =~= data);
        assert(write_txns(addr, data)[0] == write_block_tx(addr, data));
        assert((addr + cs * 0) as u32 == addr);
    } else {
        let rest = data.skip(cs);
        lemma_write_txns_blocks((addr + CHUNK_SIZE) as u32, rest);
        assert(num_chunks(data.len()) == 1 + num_chunks(rest.len()));
        assert forall|k: int| 0 <= k < num_chunks(data.len()) implies
            #[trigger] chunks(data)[k] == data.subrange(
                cs * k,
                (if len - cs * k < cs {
                    len
                } else {
                    cs * k + cs
                }),
            ) by {
            if k == 0 {
                assert(chunks(data)[0] == data.take(cs));
                assert(data.take(cs) =~= data.subrange(0, cs));
            } else {
                assert(chunks(data)[k] == chunks(rest)[k - 1]);
                assert(rest.subrange(
                    cs * (k - 1),
                    (if rest.len() - cs * (k - 1) < cs {
                        rest.len() as int
                    } else {
                        cs * (k - 1) + cs
                    }),
                ) =~= data.subrange(
                    cs * k,
                    (if len - cs * k < cs {
                        len
                    } else {
                        cs * k + cs
                    }),
                ));
            }
        };
        assert forall|k: int| 0 <= k < num_chunks(data.len()) implies
            #[trigger] write_txns(addr, data)[k] == write_block_tx(
                (addr + cs * k) as u32,
                chunks(data)[k],
            ) by {
            if k == 0 {
                assert(write_txns(addr, data)[0] == write_block_tx(addr, data.take(cs)));
                assert(chunks(data)[0] == data.take(cs));
                assert((addr + cs * 0) as u32 == addr);
            } else {
                assert(write_txns(addr, data)[k] == write_txns((addr + cs) as u32, rest)[k - 1]);
                assert(chunks(data)[k] == chunks(rest)[k - 1]);
                assert((((addr + cs) as u32) + cs * (k - 1)) as u32 == (addr + cs * k) as u32);
            }
        };
    }
}

/// The chunks of a range, concatenated back in order, are the range.
pub proof fn lemma_chunks_concat(data: Seq<u8>)
    ensures
        concat_txns(chunks(data)) == data,
    decreases data.len(),
{
    if data.len() == 0 {
        assert(concat_txns(chunks(data)) =~= data);
    } else if data.len() <= CHUNK_SIZE {
        lemma_concat_cons(data, Seq::<Seq<u8>>::empty());
        assert(seq![data] =~= seq![data] + Seq::<Seq<u8>>::empty());
        assert(data + concat_txns(Seq::<Seq<u8>>::empty()) =~= data);
    } else {
        let rest = data.skip(CHUNK_SIZE as int);
        lemma_chunks_concat(rest);
        lemma_concat_cons(data.take(CHUNK_SIZE as int), chunks(rest));
        assert(data.take(CHUNK_SIZE as int) + rest =~= data);
    }
}

/// Round trip at the wire level: the block payloads a chunked write of
/// `data` emits, in order, are exactly the chunks of `data`, and those
/// chunks concatenate back to `data`; a chunked read of the same length
/// answered from that content returns exactly it (see `read`'s contract,
/// whose response log is `read_resp` of what it hands back).
pub proof fn lemma_write_read_round_trip(addr: u32, data: Seq<u8>)
    requires
        addr + data.len() <= 0x1_0000_0000,
    ensures
        concat_txns(chunks(data)) == data,
        write_txns(addr, data).len() == chunks(data).len(),
        forall|k: int| 0 <= k < chunks(data).len()
            ==> #[trigger] write_txns(addr, data)[k] == write_block_tx(
                (addr + CHUNK_SIZE * k) as u32,
                chunks(data)[k],
            ),
{
    lemma_chunks_concat(data);
    lemma_write_txns_blocks(addr, data);
}

} // verus!
