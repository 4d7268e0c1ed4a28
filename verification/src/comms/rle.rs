//! Run-length encoding of a chunk's blocks: the block count, then either the single
//! block of a solid chunk or a sequence of (run length, block) pairs.

use super::wire::{
    dec_u16, dec_u32, enc_u16, enc_u32, lemma_int_codec, lemma_parse_enc, parse_u16, parse_u32,
    read_u16, read_u32, write_u16, write_u32,
};
use super::CommsError;
use crate::block::Block;
use vstd::prelude::*;

verus! {

/// The maximal runs of equal blocks in `v`, in order, each as (length, block).
pub open spec fn rle_runs(v: Seq<Block>) -> Seq<(nat, Block)>
    decreases v.len(),
{
    if v.len() == 0 {
        Seq::empty()
    } else {
        let r = rle_runs(v.drop_last());
        if r.len() > 0 && r.last().1 == v.last() {
            r.update(r.len() - 1, ((r.last().0 + 1) as nat, v.last()))
        } else {
            r.push((1nat, v.last()))
        }
    }
}

/// The blocks that runs stand for.
pub open spec fn expand_runs(rs: Seq<(nat, Block)>) -> Seq<Block>
    decreases rs.len(),
{
    if rs.len() == 0 {
        Seq::empty()
    } else {
        expand_runs(rs.drop_last()) + Seq::new(rs.last().0, |_i: int| rs.last().1)
    }
}

/// The total length of runs.
pub open spec fn runs_total(rs: Seq<(nat, Block)>) -> nat
    decreases rs.len(),
{
    if rs.len() == 0 {
        0
    } else {
        runs_total(rs.drop_last()) + rs.last().0
    }
}

/// The encoding of runs: each run's length as a `u16`, then its block.
pub open spec fn enc_runs(rs: Seq<(nat, Block)>) -> Seq<u8>
    decreases rs.len(),
{
    if rs.len() == 0 {
        Seq::empty()
    } else {
        enc_runs(rs.drop_last()) + enc_u16(rs.last().0 as u16) + enc_u32(rs.last().1)
    }
}

/// The run-length encoding of `v`: its length, then its block when it has one, else its runs.
pub open spec fn rle_enc(v: Seq<Block>) -> Seq<u8> {
    enc_u16(v.len() as u16) + if v.len() == 1 {
        enc_u32(v[0])
    } else {
        enc_runs(rle_runs(v))
    }
}

/// Runs read from the front of `s` until at least `need` blocks are read, and what follows.
pub open spec fn parse_runs(s: Seq<u8>, need: int) -> Result<(Seq<Block>, Seq<u8>), CommsError>
    decreases s.len(),
{
    if s.len() >= 6 {
        let c = dec_u16(s[0], s[1]);
        let b = dec_u32(s[2], s[3], s[4], s[5]);
        let run = Seq::new(c as nat, |_i: int| b);
        if need - c > 0 {
            match parse_runs(s.skip(6), need - c) {
                Ok((o, r)) => Ok((run + o, r)),
                Err(e) => Err(e),
            }
        } else {
            Ok((run, s.skip(6)))
        }
    } else {
        Err(CommsError::Disconnected)
    }
}

/// Run-length encoded blocks read from the front of `s`, and what follows them.
pub open spec fn parse_rle(s: Seq<u8>) -> Result<(Seq<Block>, Seq<u8>), CommsError> {
    match parse_u16(s) {
        Ok((n, r)) => if n == 1 {
            match parse_u32(r) {
                Ok((b, r2)) => Ok((seq![b], r2)),
                Err(e) => Err(e),
            }
        } else {
            parse_runs(r, n as int)
        },
        Err(e) => Err(e),
    }
}

/// The run-length data at the front of `s` declares at least one block and, when all its
/// runs are there, they add up to exactly the declared count.
pub open spec fn rle_decodable(s: Seq<u8>) -> bool {
    match parse_u16(s) {
        Ok((n, r)) => {
            &&& n > 0
            &&& n != 1 ==> (parse_runs(r, n as int) matches Ok((o, _)) ==> o.len() == n)
        },
        Err(_) => true,
    }
}

/// Runs are non-empty, their lengths add up to the length of `v`, and they expand to `v`.
pub proof fn lemma_runs(v: Seq<Block>)
    ensures
        expand_runs(rle_runs(v)) == v,
        runs_total(rle_runs(v)) == v.len(),
        forall|i: int| 0 <= i < rle_runs(v).len() ==> 1 <= (#[trigger] rle_runs(v)[i]).0 <= v.len(),
        v.len() > 0 ==> rle_runs(v).len() > 0 && rle_runs(v).last().1 == v.last(),
    decreases v.len(),
{
    if v.len() > 0 {
        let w = v.drop_last();
        lemma_runs(w);
        let r = rle_runs(w);
        if r.len() > 0 && r.last().1 == v.last() {
            let c = r.last().0;
            let r2 = r.update(r.len() - 1, ((c + 1) as nat, v.last()));
            assert(r2.drop_last() =~= r.drop_last());
            assert(expand_runs(r) == expand_runs(r.drop_last()) + Seq::new(c, |_i: int| r.last().1));
            assert(r2.last() == ((c + 1) as nat, v.last()));
            assert(expand_runs(r2) == expand_runs(r2.drop_last()) + Seq::new(r2.last().0, |_i: int| r2.last().1));
            assert(Seq::new(r2.last().0, |_i: int| r2.last().1) =~= Seq::new(c, |_i: int| r.last().1).push(v.last()));
            assert(v =~= w.push(v.last()));
            assert(expand_runs(r2) =~= v);
            assert(runs_total(r) == runs_total(r.drop_last()) + c);
        } else {
            let r2 = r.push((1nat, v.last()));
            assert(r2.drop_last() =~= r);
            assert(expand_runs(r2) =~= v);
        }
    }
}

/// Runs and their encoding split off their first run.
proof fn lemma_runs_front(rs: Seq<(nat, Block)>)
    requires
        rs.len() > 0,
    ensures
        enc_runs(rs) == enc_u16(rs[0].0 as u16) + enc_u32(rs[0].1) + enc_runs(rs.drop_first()),
        expand_runs(rs) == Seq::new(rs[0].0, |_i: int| rs[0].1) + expand_runs(rs.drop_first()),
        runs_total(rs) == rs[0].0 + runs_total(rs.drop_first()),
    decreases rs.len(),
{
    if rs.len() == 1 {
        assert(rs.drop_last() =~= Seq::<(nat, Block)>::empty());
        assert(rs.drop_first() =~= Seq::<(nat, Block)>::empty());
        assert(enc_runs(rs) =~= enc_u16(rs[0].0 as u16) + enc_u32(rs[0].1) + enc_runs(rs.drop_first()));
        assert(expand_runs(rs) =~= Seq::new(rs[0].0, |_i: int| rs[0].1) + expand_runs(rs.drop_first()));
    } else {
        let d = rs.drop_last();
        lemma_runs_front(d);
        assert(d.drop_first() =~= rs.drop_first().drop_last());
        assert(rs.drop_first().last() == rs.last());
        assert(enc_runs(rs) =~= enc_u16(rs[0].0 as u16) + enc_u32(rs[0].1) + enc_runs(rs.drop_first()));
        assert(expand_runs(rs) =~= Seq::new(rs[0].0, |_i: int| rs[0].1) + expand_runs(rs.drop_first()));
    }
}

/// Encoded runs of positive lengths below 65535, adding up to `need`, parse back.
proof fn lemma_parse_runs(rs: Seq<(nat, Block)>, rest: Seq<u8>, need: int)
    requires
        rs.len() > 0,
        forall|i: int| 0 <= i < rs.len() ==> 1 <= (#[trigger] rs[i]).0 < 65535,
        runs_total(rs) == need,
    ensures
        parse_runs(enc_runs(rs) + rest, need) == Ok::<(Seq<Block>, Seq<u8>), CommsError>((expand_runs(rs), rest)),
    decreases rs.len(),
{
    lemma_runs_front(rs);
    let c = rs[0].0 as u16;
    let b = rs[0].1;
    let tail = rs.drop_first();
    let s = enc_runs(rs) + rest;
    lemma_int_codec(c, b);
    assert(s =~= enc_u16(c) + enc_u32(b) + (enc_runs(tail) + rest));
    assert(s[0] == enc_u16(c)[0] && s[1] == enc_u16(c)[1]);
    assert(s[2] == enc_u32(b)[0] && s[3] == enc_u32(b)[1] && s[4] == enc_u32(b)[2] && s[5] == enc_u32(b)[3]);
    assert(s.skip(6) =~= enc_runs(tail) + rest);
    if tail.len() > 0 {
        assert forall|i: int| 0 <= i < tail.len() implies 1 <= (#[trigger] tail[i]).0 < 65535 by {
            assert(tail[i] == rs[i + 1]);
        }
        lemma_parse_runs(tail, rest, need - c);
        lemma_runs_front(tail);
    } else {
        assert(runs_total(tail) == 0);
        assert(expand_runs(tail) =~= Seq::<Block>::empty());
        assert(enc_runs(tail) =~= Seq::<u8>::empty());
        assert(Seq::new(rs[0].0, |_i: int| rs[0].1) + expand_runs(tail) =~= Seq::new(rs[0].0, |_i: int| rs[0].1));
    }
}

/// Decoding the run-length encoding of blocks gives the blocks back, whatever follows, and
/// the encoding is decodable.
pub proof fn lemma_rle_roundtrip(v: Seq<Block>, rest: Seq<u8>)
    requires
        0 < v.len() < 65535,
    ensures
        parse_rle(rle_enc(v) + rest) == Ok::<(Seq<Block>, Seq<u8>), CommsError>((v, rest)),
        rle_decodable(rle_enc(v) + rest),
{
    let n = v.len() as u16;
    let s = rle_enc(v) + rest;
    if v.len() == 1 {
        let body = enc_u32(v[0]);
        assert(s =~= enc_u16(n) + (body + rest));
        lemma_parse_enc(body + rest, 0, n, 0, 0);
        lemma_parse_enc(rest, 0, 0, 0, v[0]);
        assert(seq![v[0]] =~= v);
    } else {
        let body = enc_runs(rle_runs(v));
        assert(s =~= enc_u16(n) + (body + rest));
        lemma_parse_enc(body + rest, 0, n, 0, 0);
        lemma_runs(v);
        lemma_parse_runs(rle_runs(v), rest, v.len() as int);
    }
}

/// Write `blocks` run-length encoded: the block count, then the block of a solid chunk or
/// the (run length, block) pairs.
pub fn rle_encode_to(blocks: &Vec<Block>, writer: &mut Vec<u8>) -> (r: Result<(), CommsError>)
    requires
        0 < blocks.len() < 65535,
    ensures
        r is Ok,
        final(writer)@ == old(writer)@ + rle_enc(blocks@),
{
    let ghost v = blocks@;
    let ghost start = writer@;
    write_u16(writer, blocks.len() as u16);
    // If one block (i.e. a solid chunk) just write it, otherwise use RLE
    if blocks.len() == 1 {
        write_u32(writer, blocks[0]);
        proof {
            assert(writer@ =~= start + rle_enc(v));
        }
    } else {
        let mut run_block: Block = blocks[0];
        let mut count: u16 = 0;
        let ghost mut done: Seq<(nat, Block)> = Seq::empty();
        let mut i: usize = 0;
        proof {
            assert(v.take(0) =~= Seq::<Block>::empty());
        }
        while i < blocks.len()
            invariant
                0 < blocks.len() < 65535,
                v == blocks@,
                i <= blocks.len(),
                count <= i,
                i > 0 ==> count > 0,
                i == 0 ==> count == 0 && run_block == v[0] && done.len() == 0,
                i > 0 ==> rle_runs(v.take(i as int)) == done.push((count as nat, run_block)),
                writer@ == start + enc_u16(blocks.len() as u16) + enc_runs(done),
            decreases blocks.len() - i,
        {
            let block = blocks[i];
            proof {
                assert(v.take(i + 1).drop_last() =~= v.take(i as int));
                assert(v.take(i + 1).last() == block);
                if i > 0 {
                    lemma_runs(v.take(i as int));
                    assert(runs_total(rle_runs(v.take(i as int))) == i);
                }
            }
            if block == run_block {
                // Continue run
                count = count + 1;
                proof {
                    if i == 0 {
                        assert(rle_runs(v.take(0)) =~= Seq::<(nat, Block)>::empty());
                        assert(rle_runs(v.take(1)) =~= done.push((1nat, run_block)));
                    } else {
                        assert(rle_runs(v.take(i + 1)) =~= done.push((count as nat, run_block)));
                    }
                }
            } else {
                // New run
                let ghost prev = (count as nat, run_block);
                write_u16(writer, count);
                write_u32(writer, run_block);
                proof {
                    assert(i > 0);
                    let nd = done.push(prev);
                    assert(nd.drop_last() =~= done);
                    assert(writer@ =~= start + enc_u16(blocks.len() as u16) + enc_runs(nd));
                    assert(rle_runs(v.take(i + 1)) =~= nd.push((1nat, block)));
                    done = nd;
                }
                run_block = block;
                count = 1;
            }
            i = i + 1;
        }
        // Write last run
        let ghost last = (count as nat, run_block);
        write_u16(writer, count);
        write_u32(writer, run_block);
        proof {
            assert(v.take(blocks.len() as int) =~= v);
            let all = done.push(last);
            assert(all.drop_last() =~= done);
            assert(writer@ =~= start + enc_u16(blocks.len() as u16) + enc_runs(all));
            assert(writer@ =~= start + rle_enc(v));
        }
    }
    Ok(())
}

/// Read run-length encoded blocks at `pos`; returns them and the position after them.
pub fn rle_decode_from(b: &[u8], pos: usize) -> (r: Result<(Vec<Block>, usize), CommsError>)
    requires
        pos <= b.len(),
        rle_decodable(b@.skip(pos as int)),
    ensures
        match r {
            Ok((v, p)) => p <= b.len() && parse_rle(b@.skip(pos as int)) == Ok::<(Seq<Block>, Seq<u8>), CommsError>((v@, b@.skip(p as int))),
            Err(e) => parse_rle(b@.skip(pos as int)) == Err::<(Seq<Block>, Seq<u8>), CommsError>(e),
        },
{
    let ghost s0 = b@.skip(pos as int);
    let mut blocks: Vec<Block> = Vec::new();
    let (block_count, p0) = match read_u16(b, pos) {
        Ok(x) => x,
        Err(e) => return Err(e),
    };
    proof {
        assert(b@.skip(p0 as int).len() == s0.skip(2).len());
    }
    // If one block (i.e. a solid chunk) just read it, otherwise use RLE
    if block_count == 1 {
        let (block, p1) = match read_u32(b, p0) {
            Ok(x) => x,
            Err(e) => return Err(e),
        };
        blocks.push(block);
        proof {
            assert(blocks@ =~= seq![block]);
        }
        return Ok((blocks, p1));
    }
    let mut count: usize = 0;
    let mut p: usize = p0;
    let ghost n = block_count as int;
    proof {
        assert(blocks@ + Seq::<Block>::empty() =~= Seq::<Block>::empty());
    }
    while count < block_count as usize
        invariant
            p0 <= p <= b.len(),
            s0 == b@.skip(pos as int),
            s0.skip(2) == b@.skip(p0 as int),
            n == block_count,
            n != 1,
            blocks.len() == count,
            count < 65535 + 65535,
            rle_decodable(s0),
            parse_rle(s0) == parse_runs(b@.skip(p0 as int), n),
            count < n ==> match parse_runs(b@.skip(p as int), n - count) {
                Ok((o, rr)) => parse_runs(b@.skip(p0 as int), n) == Ok::<(Seq<Block>, Seq<u8>), CommsError>((blocks@ + o, rr)),
                Err(e) => parse_runs(b@.skip(p0 as int), n) == Err::<(Seq<Block>, Seq<u8>), CommsError>(e),
            },
            count >= n ==> parse_runs(b@.skip(p0 as int), n) == Ok::<(Seq<Block>, Seq<u8>), CommsError>((blocks@, b@.skip(p as int))),
        decreases b.len() - p,
    {
        let ghost sp = b@.skip(p as int);
        let (run_count, p1) = match read_u16(b, p) {
            Ok(x) => x,
            Err(e) => {
                proof {
                    assert(sp.len() < 2);
                    assert(parse_runs(sp, n - count) == Err::<(Seq<Block>, Seq<u8>), CommsError>(CommsError::Disconnected));
                    assert(e == CommsError::Disconnected);
                    assert(parse_rle(s0) == Err::<(Seq<Block>, Seq<u8>), CommsError>(e));
                }
                return Err(e);
            },
        };
        proof {
            assert(b@.skip(p1 as int).len() == sp.skip(2).len());
        }
        let (run_block, p2) = match read_u32(b, p1) {
            Ok(x) => x,
            Err(e) => {
                proof {
                    assert(sp.len() < 6);
                    assert(parse_runs(sp, n - count) == Err::<(Seq<Block>, Seq<u8>), CommsError>(CommsError::Disconnected));
                    assert(e == CommsError::Disconnected);
                    assert(parse_rle(s0) == Err::<(Seq<Block>, Seq<u8>), CommsError>(e));
                }
                return Err(e);
            }
        };
        proof {
            assert(b@.skip(p1 as int).len() == sp.skip(2).len());
            assert(b@.skip(p1 as int) =~= sp.skip(2));
            assert(sp.skip(6) =~= b@.skip(p2 as int));
            assert(run_count == dec_u16(sp[0], sp[1]));
            assert(run_block == dec_u32(sp[2], sp[3], sp[4], sp[5]));
        }
        let ghost before = blocks@;
        let mut j: u16 = 0;
        while j < run_count
            invariant
                j <= run_count,
                blocks@ == before + Seq::new(j as nat, |_i: int| run_block),
            decreases run_count - j,
        {
            blocks.push(run_block);
            j = j + 1;
            proof {
                assert(blocks@ =~= before + Seq::new(j as nat, |_i: int| run_block));
            }
        }
        proof {
            let run = Seq::new(run_count as nat, |_i: int| run_block);
            if n - count - run_count > 0 {
                match parse_runs(b@.skip(p2 as int), n - count - run_count) {
                    Ok((o, rr)) => {
                        assert(before + (run + o) =~= blocks@ + o);
                    },
                    Err(_) => {},
                }
            } else {
                assert(before + run =~= blocks@);
            }
        }
        count = count + run_count as usize;
        p = p2;
    }
    Ok((blocks, p))
}

/// Whether the run-length encoded blocks at `pos` can be read: they declare at least one
/// block and their runs, when all there, add up to exactly that count.
pub fn rle_check(b: &[u8], pos: usize) -> (r: bool)
    requires
        pos <= b.len(),
    ensures
        r == rle_decodable(b@.skip(pos as int)),
{
    let ghost s0 = b@.skip(pos as int);
    let (block_count, p0) = match read_u16(b, pos) {
        Ok(x) => x,
        Err(_) => return true,
    };
    proof {
        assert(b@.skip(p0 as int).len() == s0.skip(2).len());
        assert(b@.skip(p0 as int) =~= s0.skip(2));
    }
    if block_count == 0 {
        return false;
    }
    if block_count == 1 {
        return true;
    }
    let ghost n = block_count as int;
    let mut count: usize = 0;
    let mut p: usize = p0;
    while count < block_count as usize
        invariant
            p0 <= p <= b.len(),
            s0 == b@.skip(pos as int),
            s0.skip(2) == b@.skip(p0 as int),
            parse_u16(s0) == Ok::<(u16, Seq<u8>), CommsError>((block_count, b@.skip(p0 as int))),
            n == block_count,
            n > 1,
            count < 65535 + 65535,
            count < n ==> match parse_runs(b@.skip(p as int), n - count) {
                Ok((o, rr)) => (parse_runs(b@.skip(p0 as int), n) matches Ok((o2, _)) && o2.len() == count + o.len()),
                Err(e) => parse_runs(b@.skip(p0 as int), n) is Err,
            },
            count >= n ==> (parse_runs(b@.skip(p0 as int), n) matches Ok((o2, _)) && o2.len() == count),
        decreases b.len() - p,
    {
        let ghost sp = b@.skip(p as int);
        let (run_count, p1) = match read_u16(b, p) {
            Ok(x) => x,
            Err(_) => {
                proof {
                    assert(parse_runs(sp, n - count) is Err);
                }
                return true;
            },
        };
        proof {
            assert(b@.skip(p1 as int).len() == sp.skip(2).len());
        }
        let p2 = match read_u32(b, p1) {
            Ok((_, q)) => q,
            Err(_) => {
                proof {
                    assert(sp.len() < 6);
                    assert(parse_runs(sp, n - count) is Err);
                }
                return true;
            },
        };
        proof {
            assert(b@.skip(p1 as int) =~= sp.skip(2));
            assert(sp.skip(6) =~= b@.skip(p2 as int));
            assert(run_count == dec_u16(sp[0], sp[1]));
            if n - count - run_count > 0 {
                match parse_runs(b@.skip(p2 as int), n - count - run_count) {
                    Ok((o, rr)) => {
                        let run = Seq::new(run_count as nat, |_i: int| dec_u32(sp[2], sp[3], sp[4], sp[5]));
                        assert((run + o).len() == run_count + o.len());
                    },
                    Err(_) => {},
                }
            }
        }
        count = count + run_count as usize;
        p = p2;
    }
    count == block_count as usize
}

} // verus!
