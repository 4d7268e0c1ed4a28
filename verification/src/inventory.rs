//! A player's inventory: how many of each kind of block it holds, and its encoding.

use crate::block::Block;
use crate::comms::wire::{
    dec_u32, enc_u32, lemma_int_codec, lemma_parse_enc, parse_u32, read_u32, write_u32,
};
use crate::comms::CommsError;
use std::collections::HashMap;
use vstd::prelude::*;
use vstd::std_specs::hash::group_hash_axioms;
use vstd::std_specs::iter::IteratorSpec;

verus! {

broadcast use group_hash_axioms;

/// The number of blocks held of each kind.
#[derive(Debug, PartialEq)]
pub struct Inventory {
    blocks: HashMap<Block, u32>,
}

impl View for Inventory {
    type V = Map<Block, u32>;

    closed spec fn view(&self) -> Map<Block, u32> {
        self.blocks@
    }
}

/// How many blocks of `block` the map holds; none when it has no entry.
pub open spec fn held(m: Map<Block, u32>, block: Block) -> int {
    if m.contains_key(block) {
        m[block] as int
    } else {
        0
    }
}

impl Clone for Inventory {
    fn clone(&self) -> (r: Self)
        ensures
            r@ == self@,
    {
        Inventory { blocks: self.blocks.clone() }
    }
}

impl Inventory {
    pub fn new() -> (r: Self)
        ensures
            r@ == Map::<Block, u32>::empty(),
    {
        Inventory { blocks: HashMap::new() }
    }

    /// Add `count` blocks of `block`.
    pub fn add(&mut self, block: Block, count: u32)
        requires
            held(old(self)@, block) + count <= u32::MAX,
        ensures
            final(self)@ == old(self)@.insert(block, (held(old(self)@, block) + count) as u32),
    {
        let current = self.count(block);
        self.blocks.insert(block, current + count);
    }

    /// Take away `count` blocks of `block`.
    pub fn remove(&mut self, block: Block, count: u32)
        requires
            held(old(self)@, block) >= count,
        ensures
            final(self)@ == old(self)@.insert(block, (held(old(self)@, block) - count) as u32),
    {
        let current = self.count(block);
        self.blocks.insert(block, current - count);
    }

    /// How many blocks of `block` are held.
    pub fn count(&self, block: Block) -> (r: u32)
        ensures
            r == held(self@, block),
    {
        if let Some(count) = self.blocks.get(&block) {
            *count
        } else {
            0
        }
    }

    /// The count of each kind of block held.
    pub fn blocks(&self) -> (r: &HashMap<Block, u32>)
        ensures
            r@ == self@,
    {
        &self.blocks
    }
}

/// `l` lists the entries of `m`, each once.
pub open spec fn lists(l: Seq<(Block, u32)>, m: Map<Block, u32>) -> bool {
    &&& l.len() == m.len()
    &&& m.dom().finite()
    &&& forall|i: int| 0 <= i < l.len() ==> m.contains_key((#[trigger] l[i]).0) && m[l[i].0] == l[i].1
    &&& forall|i: int, j: int| 0 <= i < j < l.len() ==> (#[trigger] l[i]).0 != (#[trigger] l[j]).0
}

/// The encoding of (block, count) pairs, one after the other.
pub open spec fn enc_pairs(l: Seq<(Block, u32)>) -> Seq<u8>
    decreases l.len(),
{
    if l.len() == 0 {
        Seq::empty()
    } else {
        enc_pairs(l.drop_last()) + enc_u32(l.last().0) + enc_u32(l.last().1)
    }
}

/// The encoding of an inventory listed as `l`: the number of entries, then the entries.
pub open spec fn enc_inventory(l: Seq<(Block, u32)>) -> Seq<u8> {
    enc_u32(l.len() as u32) + enc_pairs(l)
}

/// The (block, count) pairs, up to `n`, that are all there at the front of `s`.
pub open spec fn avail_pairs(s: Seq<u8>, n: nat) -> Seq<(Block, u32)>
    decreases n,
{
    if n == 0 || s.len() < 8 {
        Seq::empty()
    } else {
        seq![(dec_u32(s[0], s[1], s[2], s[3]), dec_u32(s[4], s[5], s[6], s[7]))] + avail_pairs(
            s.skip(8),
            (n - 1) as nat,
        )
    }
}

/// The counts that adding the pairs one after the other to an empty inventory gives.
pub open spec fn inv_from(l: Seq<(Block, u32)>) -> Map<Block, u32>
    decreases l.len(),
{
    if l.len() == 0 {
        Map::empty()
    } else {
        let m = inv_from(l.drop_last());
        m.insert(l.last().0, (held(m, l.last().0) + l.last().1) as u32)
    }
}

/// Adding the pairs one after the other never takes a count above `u32::MAX`.
pub open spec fn adds_fit(l: Seq<(Block, u32)>) -> bool
    decreases l.len(),
{
    l.len() == 0 || (adds_fit(l.drop_last()) && held(inv_from(l.drop_last()), l.last().0)
        + l.last().1 <= u32::MAX)
}

/// An inventory from the front of `s`, and what follows it.
pub open spec fn parse_inventory(s: Seq<u8>) -> Result<(Map<Block, u32>, Seq<u8>), CommsError> {
    match parse_u32(s) {
        Ok((n, r)) => if avail_pairs(r, n as nat).len() == n {
            Ok((inv_from(avail_pairs(r, n as nat)), r.skip(8 * n)))
        } else {
            Err(CommsError::Disconnected)
        },
        Err(e) => Err(e),
    }
}

/// The inventory at the front of `s` can be read: its counts add up without overflow.
pub open spec fn inventory_decodable(s: Seq<u8>) -> bool {
    parse_u32(s) matches Ok((n, r)) ==> adds_fit(avail_pairs(r, n as nat))
}

/// Pairs are there exactly as far as the bytes go.
proof fn lemma_avail_len(s: Seq<u8>, n: nat)
    ensures
        avail_pairs(s, n).len() == if s.len() / 8 < n { s.len() / 8 } else { n as nat },
    decreases n,
{
    if n > 0 && s.len() >= 8 {
        lemma_avail_len(s.skip(8), (n - 1) as nat);
    }
}

/// Reading one more pair extends the available pairs by it.
proof fn lemma_avail_step(s: Seq<u8>, n: nat, k: nat)
    requires
        k < n,
        s.len() >= 8 * k + 8,
    ensures
        avail_pairs(s, n).len() > k,
        ({
            let i = 8 * k as int;
            avail_pairs(s, n)[k as int] == (dec_u32(s[i], s[i + 1], s[i + 2], s[i + 3]), dec_u32(
                s[i + 4],
                s[i + 5],
                s[i + 6],
                s[i + 7],
            ))
        }),
    decreases k,
{
    lemma_avail_len(s, n);
    if k > 0 {
        lemma_avail_step(s.skip(8), (n - 1) as nat, (k - 1) as nat);
        assert(avail_pairs(s, n)[k as int] == avail_pairs(s.skip(8), (n - 1) as nat)[k - 1]);
    }
}

/// The encoded pairs are all available again.
proof fn lemma_avail_enc(l: Seq<(Block, u32)>, rest: Seq<u8>)
    ensures
        avail_pairs(enc_pairs(l) + rest, l.len()) == l,
        enc_pairs(l).len() == 8 * l.len(),
    decreases l.len(),
{
    if l.len() > 0 {
        let d = l.drop_last();
        lemma_avail_enc(d, rest);
        let s = enc_pairs(l) + rest;
        lemma_avail_len(s, l.len());
        assert forall|k: int| 0 <= k < l.len() implies avail_pairs(s, l.len())[k] == l[k] by {
            lemma_avail_step(s, l.len(), k as nat);
            if k < d.len() {
                lemma_avail_len(enc_pairs(d) + rest, d.len());
                lemma_avail_step(enc_pairs(d) + rest, d.len(), k as nat);
                assert(s =~= enc_pairs(d) + (enc_u32(l.last().0) + enc_u32(l.last().1) + rest));
                assert forall|i: int| 0 <= i < 8 * d.len() implies s[i] == (enc_pairs(d) + rest)[i] by {}
                assert(avail_pairs(enc_pairs(d) + rest, d.len())[k] == d[k]);
            } else {
                lemma_int_codec(0, l.last().0);
                lemma_int_codec(0, l.last().1);
                let e0 = enc_u32(l.last().0);
                let e1 = enc_u32(l.last().1);
                assert(s[8 * k] == e0[0] && s[8 * k + 1] == e0[1] && s[8 * k + 2] == e0[2] && s[8 * k + 3] == e0[3]);
                assert(s[8 * k + 4] == e1[0] && s[8 * k + 5] == e1[1] && s[8 * k + 6] == e1[2] && s[8 * k + 7] == e1[3]);
            }
        }
        assert(avail_pairs(s, l.len()) =~= l);
    }
}

/// Adding the pairs of a listing without repeated blocks gives exactly those pairs, and
/// no count overflows.
proof fn lemma_inv_from_distinct(l: Seq<(Block, u32)>)
    requires
        forall|i: int, j: int| 0 <= i < j < l.len() ==> (#[trigger] l[i]).0 != (#[trigger] l[j]).0,
    ensures
        adds_fit(l),
        forall|k: Block| #[trigger] inv_from(l).contains_key(k) <==> exists|i: int| 0 <= i < l.len() && l[i].0 == k,
        forall|i: int| 0 <= i < l.len() ==> inv_from(l)[(#[trigger] l[i]).0] == l[i].1,
    decreases l.len(),
{
    if l.len() > 0 {
        let d = l.drop_last();
        lemma_inv_from_distinct(d);
        let k = l.last().0;
        assert(!inv_from(d).contains_key(k)) by {
            if inv_from(d).contains_key(k) {
                let i = choose|i: int| 0 <= i < d.len() && d[i].0 == k;
                assert(l[i].0 == l[l.len() - 1].0);
            }
        }
        assert forall|q: Block| #[trigger] inv_from(l).contains_key(q) <==> exists|i: int| 0 <= i < l.len() && l[i].0 == q by {
            if inv_from(d).contains_key(q) {
                let i = choose|i: int| 0 <= i < d.len() && d[i].0 == q;
                assert(l[i].0 == q);
            }
            if exists|i: int| 0 <= i < l.len() && l[i].0 == q {
                let i = choose|i: int| 0 <= i < l.len() && l[i].0 == q;
                if i < d.len() {
                    assert(d[i].0 == q);
                }
            }
        }
        assert forall|i: int| 0 <= i < l.len() implies inv_from(l)[(#[trigger] l[i]).0] == l[i].1 by {
            if i < d.len() {
                assert(d[i] == l[i]);
                assert(l[i].0 != k);
            }
        }
    }
}

/// The entries of a listing, added one after the other, give the listed inventory.
proof fn lemma_inv_from_lists(l: Seq<(Block, u32)>, m: Map<Block, u32>)
    requires
        lists(l, m),
    ensures
        inv_from(l) == m,
        adds_fit(l),
{
    lemma_inv_from_distinct(l);
    assert forall|k: Block| m.contains_key(k) implies exists|i: int| 0 <= i < l.len() && l[i].0 == k by {
        if !(exists|i: int| 0 <= i < l.len() && l[i].0 == k) {
            let keys = Set::new(|q: Block| exists|i: int| 0 <= i < l.len() && l[i].0 == q);
            assert(keys.subset_of(m.dom().remove(k)));
            vstd::set_lib::lemma_len_subset(keys, m.dom().remove(k));
            lemma_keys_len(l);
        }
    }
    assert(inv_from(l) =~= m);
}

/// A listing without repeated blocks has as many blocks as entries.
proof fn lemma_keys_len(l: Seq<(Block, u32)>)
    requires
        forall|i: int, j: int| 0 <= i < j < l.len() ==> (#[trigger] l[i]).0 != (#[trigger] l[j]).0,
    ensures
        Set::new(|q: Block| exists|i: int| 0 <= i < l.len() && l[i].0 == q).len() == l.len(),
        Set::new(|q: Block| exists|i: int| 0 <= i < l.len() && l[i].0 == q).finite(),
    decreases l.len(),
{
    let keys = Set::new(|q: Block| exists|i: int| 0 <= i < l.len() && l[i].0 == q);
    if l.len() == 0 {
        assert(keys =~= Set::<Block>::empty());
    } else {
        let d = l.drop_last();
        lemma_keys_len(d);
        let dk = Set::new(|q: Block| exists|i: int| 0 <= i < d.len() && d[i].0 == q);
        assert(keys =~= dk.insert(l.last().0)) by {
            assert forall|q: Block| keys.contains(q) implies dk.insert(l.last().0).contains(q) by {
                let i = choose|i: int| 0 <= i < l.len() && l[i].0 == q;
                if i < d.len() {
                    assert(d[i].0 == q);
                }
            }
            assert forall|q: Block| dk.contains(q) implies keys.contains(q) by {
                let i = choose|i: int| 0 <= i < d.len() && d[i].0 == q;
                assert(l[i].0 == q);
            }
            assert(l[l.len() - 1].0 == l.last().0);
        }
        assert(!dk.contains(l.last().0)) by {
            if dk.contains(l.last().0) {
                let i = choose|i: int| 0 <= i < d.len() && d[i].0 == l.last().0;
                assert(l[i].0 == l[l.len() - 1].0);
            }
        }
    }
}

/// Decoding the encoding of a listed inventory gives the inventory back, whatever follows.
pub proof fn lemma_inventory_roundtrip(l: Seq<(Block, u32)>, m: Map<Block, u32>, rest: Seq<u8>)
    requires
        lists(l, m),
        l.len() <= u32::MAX,
    ensures
        parse_inventory(enc_inventory(l) + rest) == Ok::<(Map<Block, u32>, Seq<u8>), CommsError>((m, rest)),
        inventory_decodable(enc_inventory(l) + rest),
{
    let n = l.len() as u32;
    let s = enc_inventory(l) + rest;
    assert(s =~= enc_u32(n) + (enc_pairs(l) + rest));
    lemma_parse_enc(enc_pairs(l) + rest, 0, 0, 0, n);
    lemma_avail_enc(l, rest);
    lemma_inv_from_lists(l, m);
    assert((enc_pairs(l) + rest).skip(8 * n) =~= rest);
}

impl Inventory {
    /// Append the encoding of the inventory: the number of entries, then each block and
    /// its count, in the order the map hands them out.
    pub fn write_to(&self, writer: &mut Vec<u8>) -> (r: Result<(), CommsError>)
        requires
            self@.len() <= u32::MAX,
        ensures
            r is Ok,
            exists|l: Seq<(Block, u32)>| lists(l, self@) && final(writer)@ == old(writer)@ + enc_inventory(l),
    {
        let count = self.blocks.len() as u32;
        write_u32(writer, count);
        let ghost start = writer@;
        let ghost mut listed: Seq<(Block, u32)> = Seq::empty();
        proof {
            vstd::std_specs::hash::axiom_spec_hash_map_iter(&self.blocks);
        }
        for pair in it: self.blocks.iter()
            invariant
                start == old(writer)@ + enc_u32(count),
                count == self@.len(),
                writer@ == start + enc_pairs(listed),
                it.seq() == IteratorSpec::remaining(&vstd::std_specs::hash::spec_hash_map_iter(&self.blocks)),
                it.seq().len() == self@.len(),
                it.seq().no_duplicates(),
                forall|i: int|
                    0 <= i < it.seq().len() ==> self@.contains_key(*(#[trigger] it.seq()[i]).0)
                        && self@[*it.seq()[i].0] == *it.seq()[i].1,
                listed.len() == it.index(),
                forall|i: int| 0 <= i < listed.len() ==> #[trigger] listed[i] == (*it.seq()[i].0, *it.seq()[i].1),
                forall|i: int| 0 <= i < listed.len() ==> self@.contains_key((#[trigger] listed[i]).0) && self@[listed[i].0] == listed[i].1,
                forall|i: int, j: int| 0 <= i < j < listed.len() ==> (#[trigger] listed[i]).0 != (#[trigger] listed[j]).0,
        {
            let (block_type, block_count) = pair;
            write_u32(writer, *block_type);
            write_u32(writer, *block_count);
            proof {
                let k = listed.len() as int;
                assert(pair == it.seq()[k]);
                let nl = listed.push((*block_type, *block_count));
                assert(nl.drop_last() =~= listed);
                assert forall|i: int, j: int| 0 <= i < j < nl.len() implies (#[trigger] nl[i]).0 != (#[trigger] nl[j]).0 by {
                    if j == k && nl[i].0 == nl[j].0 {
                        assert(self@[nl[i].0] == nl[i].1);
                        assert(nl[i] == nl[j]);
                        assert(it.seq()[i] == it.seq()[j]);
                    }
                }
                listed = nl;
            }
        }
        proof {
            assert(listed.len() == self@.len());
            assert(self@.dom().finite());
            assert(lists(listed, self@));
            assert(writer@ =~= old(writer)@ + enc_inventory(listed));
        }
        Ok(())
    }

    /// Read an inventory at `pos`: the number of entries, then that many blocks and counts,
    /// each added to an empty inventory in turn.
    pub fn read_from(b: &[u8], pos: usize) -> (r: Result<(Inventory, usize), CommsError>)
        requires
            pos <= b.len(),
            inventory_decodable(b@.skip(pos as int)),
        ensures
            match r {
                Ok((inv, p)) => p <= b.len() && parse_inventory(b@.skip(pos as int)) == Ok::<(Map<Block, u32>, Seq<u8>), CommsError>((inv@, b@.skip(p as int))),
                Err(e) => parse_inventory(b@.skip(pos as int)) == Err::<(Map<Block, u32>, Seq<u8>), CommsError>(e),
            },
    {
        let ghost s0 = b@.skip(pos as int);
        let mut inventory = Inventory::new();
        let (count, p0) = match read_u32(b, pos) {
            Ok(v) => v,
            Err(e) => return Err(e),
        };
        proof {
            assert(b@.skip(p0 as int).len() == s0.skip(4).len());
            assert(b@.skip(p0 as int) =~= s0.skip(4));
        }
        let ghost r0 = b@.skip(p0 as int);
        let ghost all = avail_pairs(r0, count as nat);
        let mut p = p0;
        let mut i: u32 = 0;
        proof {
            lemma_avail_len(r0, count as nat);
            assert(all.take(0) =~= Seq::<(Block, u32)>::empty());
        }
        while i < count
            invariant
                i <= count,
                s0 == b@.skip(pos as int),
                s0.skip(4) == r0,
                parse_u32(s0) == Ok::<(u32, Seq<u8>), CommsError>((count, r0)),
                p0 <= p <= b.len(),
                p == p0 + 8 * i,
                r0 == b@.skip(p0 as int),
                r0.len() >= 8 * i,
                all == avail_pairs(r0, count as nat),
                all.len() >= i,
                adds_fit(all),
                inventory@ == inv_from(all.take(i as int)),
            decreases count - i,
        {
            let ghost sp = b@.skip(p as int);
            let (block, p1) = match read_u32(b, p) {
                Ok(v) => v,
                Err(e) => {
                    proof {
                        assert(b@.skip(p as int).len() == r0.len() - 8 * i);
                        lemma_avail_len(r0, count as nat);
                        assert(e == CommsError::Disconnected);
                    }
                    return Err(e);
                },
            };
            proof {
                assert(b@.skip(p1 as int).len() == sp.len() - 4);
                assert(p1 == p + 4);
            }
            let (block_count, p2) = match read_u32(b, p1) {
                Ok(v) => v,
                Err(e) => {
                    proof {
                        assert(b@.skip(p as int).len() == r0.len() - 8 * i);
                        lemma_avail_len(r0, count as nat);
                        assert(e == CommsError::Disconnected);
                    }
                    return Err(e);
                },
            };
            proof {
                assert(b@.skip(p2 as int).len() == sp.len() - 8);
                assert(p2 == p + 8);
                assert(sp =~= r0.skip(8 * i));
                lemma_avail_step(r0, count as nat, i as nat);
                assert(sp[0] == r0[8 * i] && sp[1] == r0[8 * i + 1] && sp[2] == r0[8 * i + 2] && sp[3] == r0[8 * i + 3]);
                assert(b@.skip(p1 as int)[0] == r0[8 * i + 4] && b@.skip(p1 as int)[1] == r0[8 * i + 5]);
                assert(b@.skip(p1 as int)[2] == r0[8 * i + 6] && b@.skip(p1 as int)[3] == r0[8 * i + 7]);
                assert(all[i as int] == (block, block_count));
                lemma_adds_prefix(all, i + 1);
                assert(all.take(i + 1).drop_last() =~= all.take(i as int));
                assert(all.take(i + 1).last() == (block, block_count));
            }
            inventory.add(block, block_count);
            p = p2;
            i = i + 1;
        }
        proof {
            assert(all.take(count as int) =~= all);
            assert(b@.skip(p as int) =~= r0.skip(8 * count));
        }
        Ok((inventory, p))
    }
}

/// Every prefix of pairs that add up without overflow adds up without overflow.
proof fn lemma_adds_prefix(l: Seq<(Block, u32)>, k: int)
    requires
        adds_fit(l),
        0 <= k <= l.len(),
    ensures
        adds_fit(l.take(k)),
    decreases l.len(),
{
    if k < l.len() {
        assert(l.drop_last().take(k) =~= l.take(k));
        lemma_adds_prefix(l.drop_last(), k);
    } else {
        assert(l.take(k) =~= l);
    }
}

impl Inventory {
    /// Whether the inventory encoded at `pos` can be read: adding its counts, as far as they
    /// are there, never overflows.
    pub fn check_decodable(b: &[u8], pos: usize) -> (r: bool)
        requires
            pos <= b.len(),
        ensures
            r == inventory_decodable(b@.skip(pos as int)),
    {
        let ghost s0 = b@.skip(pos as int);
        let (count, p0) = match read_u32(b, pos) {
            Ok(v) => v,
            Err(_) => return true,
        };
        proof {
            assert(b@.skip(p0 as int).len() == s0.skip(4).len());
            assert(b@.skip(p0 as int) =~= s0.skip(4));
        }
        let ghost r0 = b@.skip(p0 as int);
        let ghost all = avail_pairs(r0, count as nat);
        proof {
            lemma_avail_len(r0, count as nat);
            assert(all.take(0) =~= Seq::<(Block, u32)>::empty());
        }
        let mut inventory = Inventory::new();
        let mut p = p0;
        let mut i: u32 = 0;
        while i < count && b.len() - p >= 8
            invariant
                i <= count,
                p0 <= p <= b.len(),
                p == p0 + 8 * i,
                r0 == b@.skip(p0 as int),
                all == avail_pairs(r0, count as nat),
                all.len() == if r0.len() / 8 < count { r0.len() / 8 } else { count as nat },
                i <= all.len(),
                adds_fit(all.take(i as int)),
                inventory@ == inv_from(all.take(i as int)),
                s0 == b@.skip(pos as int),
                parse_u32(s0) == Ok::<(u32, Seq<u8>), CommsError>((count, r0)),
            decreases count - i,
        {
            let ghost sp = b@.skip(p as int);
            let (block, p1) = read_u32(b, p).unwrap();
            proof {
                assert(b@.skip(p1 as int).len() == sp.len() - 4);
                assert(p1 == p + 4);
            }
            let (block_count, p2) = read_u32(b, p1).unwrap();
            proof {
                assert(b@.skip(p2 as int).len() == sp.len() - 8);
                assert(p2 == p + 8);
                assert(sp =~= r0.skip(8 * i));
                lemma_avail_step(r0, count as nat, i as nat);
                assert(sp[0] == r0[8 * i] && sp[1] == r0[8 * i + 1] && sp[2] == r0[8 * i + 2] && sp[3] == r0[8 * i + 3]);
                assert(b@.skip(p1 as int)[0] == r0[8 * i + 4] && b@.skip(p1 as int)[1] == r0[8 * i + 5]);
                assert(b@.skip(p1 as int)[2] == r0[8 * i + 6] && b@.skip(p1 as int)[3] == r0[8 * i + 7]);
                assert(all[i as int] == (block, block_count));
                assert(all.take(i + 1).drop_last() =~= all.take(i as int));
                assert(all.take(i + 1).last() == (block, block_count));
            }
            let current = inventory.count(block);
            if current as u64 + block_count as u64 > u32::MAX as u64 {
                proof {
                    assert(!adds_fit(all.take(i + 1)));
                    if adds_fit(all) {
                        lemma_adds_prefix(all, i + 1);
                    }
                }
                return false;
            }
            inventory.add(block, block_count);
            p = p2;
            i = i + 1;
        }
        proof {
            assert(all.take(i as int) =~= all);
        }
        true
    }
}

} // verus!
