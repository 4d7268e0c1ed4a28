//! The messages of the protocol and their encoding: a variant byte, then the fields in
//! order. Angles and coordinates travel as the bits of `f32` values.

use super::wire::{
    dec_u16, dec_u32, enc_i16, enc_str, enc_u16, enc_u32, enc_u8, lemma_i16_codec,
    lemma_int_codec, lemma_parse_enc, lemma_parse_enc_str, parse_str, parse_u16, parse_u8,
    read_i16, read_string, read_u16, read_u32, read_u8, str_fits, str_valid, write_i16,
    write_string, write_u16, write_u32, write_u8,
};
use super::wire::{check_str_valid, copy_bytes, write_bytes};
use super::CommsError;
use crate::block::Block;
use crate::chunk::chunkcolumn::ChunkColumnPos;
use crate::inventory::{
    enc_inventory, inventory_decodable, lemma_inventory_roundtrip, lists, parse_inventory,
    Inventory,
};
use vstd::prelude::*;

verus! {

pub const CM_VARIANT_SIGN_IN: u8 = 0;
pub const CM_VARIANT_SIGN_OUT: u8 = 1;
pub const CM_VARIANT_POSITION_UPDATE: u8 = 2;
pub const CM_VARIANT_SUBSCRIBE: u8 = 3;
pub const CM_VARIANT_UNSUBSCRIBE: u8 = 4;
pub const CM_VARIANT_SET_BLOCK: u8 = 5;

/// A message from a client to the server.
#[derive(Debug, PartialEq, Clone)]
pub enum ClientMessage {
    SignIn { username: String },
    PositionUpdate { x: u32, y: u32, z: u32, yaw: u32, pitch: u32 },
    Subscribe { columns: Vec<ChunkColumnPos> },
    /// A set of columns, listed each once. It is a list rather than a `HashSet`: what vstd
    /// says of a hash set holds only for keys whose hashing obeys its key model, which a
    /// derived `Hash` on a struct of this crate does not show, and the encoding would follow
    /// the set's hash order, which nothing could state.
    Unsubscribe { columns: Vec<ChunkColumnPos> },
    SetBlock { wbx: i16, wby: i16, wbz: i16, block: Block },
    SignOut {},
}

/// The content of a client message.
pub enum ClientMessageView {
    SignIn { username: Seq<char> },
    PositionUpdate { x: u32, y: u32, z: u32, yaw: u32, pitch: u32 },
    Subscribe { columns: Seq<ChunkColumnPos> },
    Unsubscribe { columns: Seq<ChunkColumnPos> },
    SetBlock { wbx: i16, wby: i16, wbz: i16, block: Block },
    SignOut,
}

impl View for ClientMessage {
    type V = ClientMessageView;

    open spec fn view(&self) -> ClientMessageView {
        match self {
            ClientMessage::SignIn { username } => ClientMessageView::SignIn { username: username@ },
            ClientMessage::PositionUpdate { x, y, z, yaw, pitch } => ClientMessageView::PositionUpdate {
                x: *x,
                y: *y,
                z: *z,
                yaw: *yaw,
                pitch: *pitch,
            },
            ClientMessage::Subscribe { columns } => ClientMessageView::Subscribe { columns: columns@ },
            ClientMessage::Unsubscribe { columns } => ClientMessageView::Unsubscribe { columns: columns@ },
            ClientMessage::SetBlock { wbx, wby, wbz, block } => ClientMessageView::SetBlock {
                wbx: *wbx,
                wby: *wby,
                wbz: *wbz,
                block: *block,
            },
            ClientMessage::SignOut {} => ClientMessageView::SignOut,
        }
    }
}

/// The encoding of a column position: x, then y.
pub open spec fn enc_column(c: ChunkColumnPos) -> Seq<u8> {
    enc_i16(c.x) + enc_i16(c.y)
}

/// The encoding of column positions, one after the other.
pub open spec fn enc_columns(cs: Seq<ChunkColumnPos>) -> Seq<u8>
    decreases cs.len(),
{
    if cs.len() == 0 {
        Seq::empty()
    } else {
        enc_column(cs[0]) + enc_columns(cs.drop_first())
    }
}

/// `n` column positions from the front of `s`, and what follows them.
pub open spec fn parse_columns(s: Seq<u8>, n: nat) -> Result<(Seq<ChunkColumnPos>, Seq<u8>), CommsError>
    decreases n,
{
    if n == 0 {
        Ok((Seq::empty(), s))
    } else if s.len() >= 4 {
        let c = ChunkColumnPos { x: dec_u16(s[0], s[1]) as i16, y: dec_u16(s[2], s[3]) as i16 };
        match parse_columns(s.skip(4), (n - 1) as nat) {
            Ok((cs, r)) => Ok((seq![c] + cs, r)),
            Err(e) => Err(e),
        }
    } else {
        Err(CommsError::Disconnected)
    }
}

/// The `u32` at index `i` of `s`.
pub open spec fn u32_at(s: Seq<u8>, i: int) -> u32 {
    dec_u32(s[i], s[i + 1], s[i + 2], s[i + 3])
}

/// The `i16` at index `i` of `s`.
pub open spec fn i16_at(s: Seq<u8>, i: int) -> i16 {
    dec_u16(s[i], s[i + 1]) as i16
}

/// The encoding of a client message: its variant byte, then its fields.
pub open spec fn enc_client(m: ClientMessageView) -> Seq<u8> {
    match m {
        ClientMessageView::SignIn { username } => enc_u8(CM_VARIANT_SIGN_IN) + enc_str(username),
        ClientMessageView::SignOut => enc_u8(CM_VARIANT_SIGN_OUT),
        ClientMessageView::PositionUpdate { x, y, z, yaw, pitch } => enc_u8(CM_VARIANT_POSITION_UPDATE)
            + (enc_u32(x) + enc_u32(y) + enc_u32(z) + enc_u32(yaw) + enc_u32(pitch)),
        ClientMessageView::Subscribe { columns } => enc_u8(CM_VARIANT_SUBSCRIBE) + (enc_u16(
            columns.len() as u16,
        ) + enc_columns(columns)),
        ClientMessageView::Unsubscribe { columns } => enc_u8(CM_VARIANT_UNSUBSCRIBE) + (enc_u16(
            columns.len() as u16,
        ) + enc_columns(columns)),
        ClientMessageView::SetBlock { wbx, wby, wbz, block } => enc_u8(CM_VARIANT_SET_BLOCK) + (
        enc_i16(wbx) + enc_i16(wby) + enc_i16(wbz) + enc_u32(block)),
    }
}

/// A client message from the front of `s`, and what follows it.
pub open spec fn parse_client(s: Seq<u8>) -> Result<(ClientMessageView, Seq<u8>), CommsError> {
    match parse_u8(s) {
        Err(e) => Err(e),
        Ok((tag, r)) => if tag == CM_VARIANT_SIGN_IN {
            match parse_str(r) {
                Ok((u, r2)) => Ok((ClientMessageView::SignIn { username: u }, r2)),
                Err(e) => Err(e),
            }
        } else if tag == CM_VARIANT_SIGN_OUT {
            Ok((ClientMessageView::SignOut, r))
        } else if tag == CM_VARIANT_POSITION_UPDATE {
            if r.len() >= 20 {
                Ok(
                    (
                        ClientMessageView::PositionUpdate {
                            x: u32_at(r, 0),
                            y: u32_at(r, 4),
                            z: u32_at(r, 8),
                            yaw: u32_at(r, 12),
                            pitch: u32_at(r, 16),
                        },
                        r.skip(20),
                    ),
                )
            } else {
                Err(CommsError::Disconnected)
            }
        } else if tag == CM_VARIANT_SUBSCRIBE || tag == CM_VARIANT_UNSUBSCRIBE {
            match parse_u16(r) {
                Ok((n, r2)) => match parse_columns(r2, n as nat) {
                    Ok((cs, r3)) => Ok(
                        (
                            if tag == CM_VARIANT_SUBSCRIBE {
                                ClientMessageView::Subscribe { columns: cs }
                            } else {
                                ClientMessageView::Unsubscribe { columns: cs }
                            },
                            r3,
                        ),
                    ),
                    Err(e) => Err(e),
                },
                Err(e) => Err(e),
            }
        } else if tag == CM_VARIANT_SET_BLOCK {
            if r.len() >= 10 {
                Ok(
                    (
                        ClientMessageView::SetBlock {
                            wbx: i16_at(r, 0),
                            wby: i16_at(r, 2),
                            wbz: i16_at(r, 4),
                            block: u32_at(r, 6),
                        },
                        r.skip(10),
                    ),
                )
            } else {
                Err(CommsError::Disconnected)
            }
        } else {
            Err(CommsError::ProtocolError)
        },
    }
}

/// The client message at the front of `s` can be read: a username, when all of it is
/// there, is valid UTF-8, and the columns to unsubscribe are all different.
pub open spec fn client_decodable(s: Seq<u8>) -> bool {
    match parse_u8(s) {
        Ok((tag, r)) => {
            &&& tag == CM_VARIANT_SIGN_IN ==> str_valid(r)
            &&& tag == CM_VARIANT_UNSUBSCRIBE ==> (parse_u16(r) matches Ok((n, r2)) ==> (parse_columns(
                r2,
                n as nat,
            ) matches Ok((cs, _)) ==> cs.no_duplicates()))
        },
        Err(_) => true,
    }
}

/// A client message fits the encoding: its username and column lists are short enough.
pub open spec fn client_fits(m: ClientMessageView) -> bool {
    match m {
        ClientMessageView::SignIn { username } => str_fits(username),
        ClientMessageView::Subscribe { columns } => columns.len() < 65535,
        ClientMessageView::Unsubscribe { columns } => columns.len() < 65535,
        _ => true,
    }
}

/// A client message is well formed: the columns to unsubscribe are all different.
pub open spec fn client_wf(m: ClientMessageView) -> bool {
    m matches ClientMessageView::Unsubscribe { columns } ==> columns.no_duplicates()
}

/// Appending one column position to the list appends its encoding.
proof fn lemma_enc_columns_push(cs: Seq<ChunkColumnPos>, c: ChunkColumnPos)
    ensures
        enc_columns(cs.push(c)) == enc_columns(cs) + enc_column(c),
    decreases cs.len(),
{
    if cs.len() == 0 {
        let t = cs.push(c);
        assert(t.drop_first() =~= Seq::<ChunkColumnPos>::empty());
        assert(enc_columns(t.drop_first()) == Seq::<u8>::empty());
        assert(t[0] == c);
        assert(enc_columns(t) =~= enc_columns(cs) + enc_column(c));
    } else {
        lemma_enc_columns_push(cs.drop_first(), c);
        let t = cs.push(c);
        assert(t.drop_first() =~= cs.drop_first().push(c));
        assert(t[0] == cs[0]);
        assert(enc_columns(t) == enc_column(cs[0]) + enc_columns(cs.drop_first().push(c)));
        assert(enc_columns(cs) == enc_column(cs[0]) + enc_columns(cs.drop_first()));
        assert(enc_columns(t) =~= enc_columns(cs) + enc_column(c));
    }
}

/// Encoded column positions parse back, whatever follows them.
proof fn lemma_parse_columns(cs: Seq<ChunkColumnPos>, rest: Seq<u8>)
    ensures
        parse_columns(enc_columns(cs) + rest, cs.len()) == Ok::<(Seq<ChunkColumnPos>, Seq<u8>), CommsError>((cs, rest)),
    decreases cs.len(),
{
    if cs.len() == 0 {
        assert(enc_columns(cs) + rest =~= rest);
        assert(cs =~= Seq::<ChunkColumnPos>::empty());
    } else {
        let c = cs[0];
        let tail = cs.drop_first();
        lemma_parse_columns(tail, rest);
        let s = enc_columns(cs) + rest;
        lemma_i16_codec(c.x);
        lemma_i16_codec(c.y);
        assert(s =~= enc_i16(c.x) + enc_i16(c.y) + (enc_columns(tail) + rest));
        assert(s[0] == enc_i16(c.x)[0] && s[1] == enc_i16(c.x)[1]);
        assert(s[2] == enc_i16(c.y)[0] && s[3] == enc_i16(c.y)[1]);
        assert(s.skip(4) =~= enc_columns(tail) + rest);
        assert(seq![c] + tail =~= cs);
    }
}

/// Twenty bytes of five encoded `u32` values read back as them.
proof fn lemma_u32_fields(a: u32, b: u32, c: u32, d: u32, e: u32, rest: Seq<u8>)
    ensures
        ({
            let s = enc_u32(a) + enc_u32(b) + enc_u32(c) + enc_u32(d) + enc_u32(e) + rest;
            &&& s.len() >= 20
            &&& u32_at(s, 0) == a
            &&& u32_at(s, 4) == b
            &&& u32_at(s, 8) == c
            &&& u32_at(s, 12) == d
            &&& u32_at(s, 16) == e
            &&& s.skip(20) == rest
        }),
{
    let s = enc_u32(a) + enc_u32(b) + enc_u32(c) + enc_u32(d) + enc_u32(e) + rest;
    lemma_int_codec(0, a);
    lemma_int_codec(0, b);
    lemma_int_codec(0, c);
    lemma_int_codec(0, d);
    lemma_int_codec(0, e);
    assert(s.skip(20) =~= rest);
    assert(s.subrange(0, 4) =~= enc_u32(a));
    assert(s.subrange(4, 8) =~= enc_u32(b));
    assert(s.subrange(8, 12) =~= enc_u32(c));
    assert(s.subrange(12, 16) =~= enc_u32(d));
    assert(s.subrange(16, 20) =~= enc_u32(e));
}

proof fn lemma_client_columns_roundtrip(tag: u8, columns: Seq<ChunkColumnPos>, rest: Seq<u8>)
    requires
        columns.len() < 65535,
    ensures
        ({
            let s = enc_u8(tag) + (enc_u16(columns.len() as u16) + enc_columns(columns)) + rest;
            &&& parse_u8(s) == Ok::<(u8, Seq<u8>), CommsError>((tag, enc_u16(columns.len() as u16) + (enc_columns(columns) + rest)))
            &&& parse_u16(enc_u16(columns.len() as u16) + (enc_columns(columns) + rest)) == Ok::<(u16, Seq<u8>), CommsError>((columns.len() as u16, enc_columns(columns) + rest))
            &&& parse_columns(enc_columns(columns) + rest, columns.len()) == Ok::<(Seq<ChunkColumnPos>, Seq<u8>), CommsError>((columns, rest))
        }),
{
    let n = columns.len() as u16;
    let s = enc_u8(tag) + (enc_u16(n) + enc_columns(columns)) + rest;
    assert(s =~= enc_u8(tag) + (enc_u16(n) + (enc_columns(columns) + rest)));
    lemma_parse_enc(enc_u16(n) + (enc_columns(columns) + rest), tag, 0, 0, 0);
    lemma_parse_enc(enc_columns(columns) + rest, 0, n, 0, 0);
    lemma_parse_columns(columns, rest);
}

proof fn lemma_client_fixed_roundtrip(m: ClientMessageView, rest: Seq<u8>)
    requires
        m is PositionUpdate || m is SetBlock || m is SignOut,
    ensures
        parse_client(enc_client(m) + rest) == Ok::<(ClientMessageView, Seq<u8>), CommsError>((m, rest)),
{
    let s = enc_client(m) + rest;
    match m {
        ClientMessageView::SignOut => {
            lemma_parse_enc(rest, CM_VARIANT_SIGN_OUT, 0, 0, 0);
        },
        ClientMessageView::PositionUpdate { x, y, z, yaw, pitch } => {
            let body = enc_u32(x) + enc_u32(y) + enc_u32(z) + enc_u32(yaw) + enc_u32(pitch);
            assert(s =~= enc_u8(CM_VARIANT_POSITION_UPDATE) + (body + rest));
            lemma_parse_enc(body + rest, CM_VARIANT_POSITION_UPDATE, 0, 0, 0);
            lemma_u32_fields(x, y, z, yaw, pitch, rest);
        },
        ClientMessageView::SetBlock { wbx, wby, wbz, block } => {
            let body = enc_i16(wbx) + enc_i16(wby) + enc_i16(wbz) + enc_u32(block);
            assert(s =~= enc_u8(CM_VARIANT_SET_BLOCK) + (body + rest));
            lemma_parse_enc(body + rest, CM_VARIANT_SET_BLOCK, 0, 0, 0);
            lemma_i16_codec(wbx);
            lemma_i16_codec(wby);
            lemma_i16_codec(wbz);
            lemma_int_codec(0, block);
            let t = body + rest;
            assert(t.subrange(0, 2) =~= enc_i16(wbx));
            assert(t.subrange(2, 4) =~= enc_i16(wby));
            assert(t.subrange(4, 6) =~= enc_i16(wbz));
            assert(t.subrange(6, 10) =~= enc_u32(block));
            assert(t.skip(10) =~= rest);
        },
        _ => {},
    }
}

/// Decoding the encoding of a well-formed client message that fits gives it back,
/// whatever follows it.
pub proof fn lemma_client_roundtrip(m: ClientMessageView, rest: Seq<u8>)
    requires
        client_fits(m),
        client_wf(m),
    ensures
        parse_client(enc_client(m) + rest) == Ok::<(ClientMessageView, Seq<u8>), CommsError>((m, rest)),
        client_decodable(enc_client(m) + rest),
{
    let s = enc_client(m) + rest;
    match m {
        ClientMessageView::SignIn { username } => {
            assert(s =~= enc_u8(CM_VARIANT_SIGN_IN) + (enc_str(username) + rest));
            lemma_parse_enc(enc_str(username) + rest, CM_VARIANT_SIGN_IN, 0, 0, 0);
            lemma_parse_enc_str(username, rest);
        },
        ClientMessageView::Subscribe { columns } => {
            lemma_client_columns_roundtrip(CM_VARIANT_SUBSCRIBE, columns, rest);
        },
        ClientMessageView::Unsubscribe { columns } => {
            lemma_client_columns_roundtrip(CM_VARIANT_UNSUBSCRIBE, columns, rest);
        },
        _ => {
            lemma_client_fixed_roundtrip(m, rest);
            lemma_parse_enc(s.skip(1), s[0], 0, 0, 0);
        },
    }
}

/// Append the column positions: x, then y, of each.
fn write_columns(writer: &mut Vec<u8>, columns: &Vec<ChunkColumnPos>)
    ensures
        final(writer)@ == old(writer)@ + enc_columns(columns@),
{
    let mut i: usize = 0;
    proof {
        assert(columns@.take(0) =~= Seq::<ChunkColumnPos>::empty());
        assert(writer@ =~= old(writer)@ + enc_columns(columns@.take(0)));
    }
    while i < columns.len()
        invariant
            i <= columns.len(),
            writer@ == old(writer)@ + enc_columns(columns@.take(i as int)),
        decreases columns.len() - i,
    {
        let cp = columns[i];
        write_i16(writer, cp.x);
        write_i16(writer, cp.y);
        proof {
            lemma_enc_columns_push(columns@.take(i as int), cp);
            assert(columns@.take(i as int).push(cp) =~= columns@.take(i + 1));
            assert(writer@ =~= old(writer)@ + enc_columns(columns@.take(i + 1)));
        }
        i = i + 1;
    }
    proof {
        assert(columns@.take(columns.len() as int) =~= columns@);
    }
}

/// Read `size` column positions at `pos`.
fn read_columns(b: &[u8], pos: usize, size: u16) -> (r: Result<(Vec<ChunkColumnPos>, usize), CommsError>)
    requires
        pos <= b.len(),
    ensures
        match r {
            Ok((cs, p)) => p <= b.len() && parse_columns(b@.skip(pos as int), size as nat) == Ok::<(Seq<ChunkColumnPos>, Seq<u8>), CommsError>((cs@, b@.skip(p as int))),
            Err(e) => parse_columns(b@.skip(pos as int), size as nat) == Err::<(Seq<ChunkColumnPos>, Seq<u8>), CommsError>(e),
        },
{
    let mut columns: Vec<ChunkColumnPos> = Vec::new();
    let mut p: usize = pos;
    let mut i: u16 = 0;
    while i < size
        invariant
            i <= size,
            pos <= p <= b.len(),
            columns.len() == i,
            match parse_columns(b@.skip(p as int), (size - i) as nat) {
                Ok((o, rr)) => parse_columns(b@.skip(pos as int), size as nat) == Ok::<(Seq<ChunkColumnPos>, Seq<u8>), CommsError>((columns@ + o, rr)),
                Err(e) => parse_columns(b@.skip(pos as int), size as nat) == Err::<(Seq<ChunkColumnPos>, Seq<u8>), CommsError>(e),
            },
        decreases size - i,
    {
        let ghost sp = b@.skip(p as int);
        let (x, p1) = match read_i16(b, p) {
            Ok(v) => v,
            Err(e) => {
                proof {
                    assert(parse_columns(sp, (size - i) as nat) == Err::<(Seq<ChunkColumnPos>, Seq<u8>), CommsError>(CommsError::Disconnected));
                }
                return Err(e);
            },
        };
        proof {
            assert(b@.skip(p1 as int).len() == sp.skip(2).len());
            assert(b@.skip(p1 as int) =~= sp.skip(2));
        }
        let (y, p2) = match read_i16(b, p1) {
            Ok(v) => v,
            Err(e) => {
                proof {
                    assert(parse_columns(sp, (size - i) as nat) == Err::<(Seq<ChunkColumnPos>, Seq<u8>), CommsError>(CommsError::Disconnected));
                }
                return Err(e);
            },
        };
        proof {
            assert(b@.skip(p2 as int) =~= sp.skip(4));
        }
        let ghost before = columns@;
        let c = ChunkColumnPos { x, y };
        columns.push(c);
        proof {
            match parse_columns(b@.skip(p2 as int), (size - i - 1) as nat) {
                Ok((o, rr)) => {
                    assert(before + (seq![c] + o) =~= columns@ + o);
                },
                Err(_) => {},
            }
        }
        p = p2;
        i = i + 1;
    }
    proof {
        assert(columns@ + Seq::<ChunkColumnPos>::empty() =~= columns@);
    }
    Ok((columns, p))
}

impl ClientMessage {
    /// Append the encoding of the message to `writer`.
    pub fn serialize_into_writer(&self, writer: &mut Vec<u8>) -> (r: Result<(), CommsError>)
        requires
            client_fits(self@),
        ensures
            r is Ok,
            final(writer)@ == old(writer)@ + enc_client(self@),
    {
        match self {
            ClientMessage::SignIn { username } => {
                write_u8(writer, CM_VARIANT_SIGN_IN);
                write_string(writer, username);
            },
            ClientMessage::SignOut {} => {
                write_u8(writer, CM_VARIANT_SIGN_OUT);
            },
            ClientMessage::PositionUpdate { x, y, z, yaw, pitch } => {
                write_u8(writer, CM_VARIANT_POSITION_UPDATE);
                write_u32(writer, *x);
                write_u32(writer, *y);
                write_u32(writer, *z);
                write_u32(writer, *yaw);
                write_u32(writer, *pitch);
            },
            ClientMessage::Subscribe { columns } => {
                write_u8(writer, CM_VARIANT_SUBSCRIBE);
                write_u16(writer, columns.len() as u16);
                write_columns(writer, columns);
            },
            ClientMessage::Unsubscribe { columns } => {
                write_u8(writer, CM_VARIANT_UNSUBSCRIBE);
                write_u16(writer, columns.len() as u16);
                write_columns(writer, columns);
            },
            ClientMessage::SetBlock { wbx, wby, wbz, block } => {
                write_u8(writer, CM_VARIANT_SET_BLOCK);
                write_i16(writer, *wbx);
                write_i16(writer, *wby);
                write_i16(writer, *wbz);
                write_u32(writer, *block);
            },
        }
        proof {
            assert(final(writer)@ =~= old(writer)@ + enc_client(self@));
        }
        Ok(())
    }

    /// Read a message from the front of `reader`; returns it and the number of bytes it took.
    pub fn deserialize_from_reader(reader: &[u8]) -> (r: Result<(ClientMessage, usize), CommsError>)
        requires
            client_decodable(reader@),
        ensures
            match r {
                Ok((m, n)) => n <= reader.len() && parse_client(reader@) == Ok::<(ClientMessageView, Seq<u8>), CommsError>((m@, reader@.skip(n as int))),
                Err(e) => parse_client(reader@) == Err::<(ClientMessageView, Seq<u8>), CommsError>(e),
            },
    {
        let b = reader;
        proof {
            assert(b@.skip(0) =~= b@);
        }
        let (enum_variant, p) = match read_u8(b, 0) {
            Ok(v) => v,
            Err(e) => return Err(e),
        };
        let ghost r = b@.skip(1);
        proof {
            assert(b@.skip(p as int).len() == r.len());
            assert(p == 1);
        }
        if enum_variant == CM_VARIANT_SIGN_IN {
            let (username, p2) = match read_string(b, p) {
                Ok(v) => v,
                Err(e) => return Err(e),
            };
            Ok((ClientMessage::SignIn { username }, p2))
        } else if enum_variant == CM_VARIANT_SIGN_OUT {
            Ok((ClientMessage::SignOut {}, p))
        } else if enum_variant == CM_VARIANT_POSITION_UPDATE {
            if b.len() - p < 20 {
                return Err(CommsError::Disconnected);
            }
            let (x, p1) = read_u32(b, p).unwrap();
            let (y, p2) = read_u32(b, p1).unwrap();
            let (z, p3) = read_u32(b, p2).unwrap();
            let (yaw, p4) = read_u32(b, p3).unwrap();
            let (pitch, p5) = read_u32(b, p4).unwrap();
            proof {
                assert(b@.skip(p1 as int).len() == b@.len() - 5);
                assert(b@.skip(p2 as int).len() == b@.len() - 9);
                assert(b@.skip(p3 as int).len() == b@.len() - 13);
                assert(b@.skip(p4 as int).len() == b@.len() - 17);
                assert(b@.skip(p5 as int).len() == b@.len() - 21);
                assert(b@.skip(p5 as int) =~= r.skip(20));
            }
            Ok((ClientMessage::PositionUpdate { x, y, z, yaw, pitch }, p5))
        } else if enum_variant == CM_VARIANT_SUBSCRIBE || enum_variant == CM_VARIANT_UNSUBSCRIBE {
            let (size, p1) = match read_u16(b, p) {
                Ok(v) => v,
                Err(e) => return Err(e),
            };
            proof {
                assert(b@.skip(p1 as int).len() == r.skip(2).len());
                assert(b@.skip(p1 as int) =~= r.skip(2));
            }
            let (columns, p2) = match read_columns(b, p1, size) {
                Ok(v) => v,
                Err(e) => return Err(e),
            };
            if enum_variant == CM_VARIANT_SUBSCRIBE {
                Ok((ClientMessage::Subscribe { columns }, p2))
            } else {
                Ok((ClientMessage::Unsubscribe { columns }, p2))
            }
        } else if enum_variant == CM_VARIANT_SET_BLOCK {
            if b.len() - p < 10 {
                return Err(CommsError::Disconnected);
            }
            let (wbx, p1) = read_i16(b, p).unwrap();
            let (wby, p2) = read_i16(b, p1).unwrap();
            let (wbz, p3) = read_i16(b, p2).unwrap();
            let (block, p4) = read_u32(b, p3).unwrap();
            proof {
                assert(b@.skip(p1 as int).len() == b@.len() - 3);
                assert(b@.skip(p2 as int).len() == b@.len() - 5);
                assert(b@.skip(p3 as int).len() == b@.len() - 7);
                assert(b@.skip(p4 as int).len() == b@.len() - 11);
                assert(b@.skip(p4 as int) =~= r.skip(10));
            }
            Ok((ClientMessage::SetBlock { wbx, wby, wbz, block }, p4))
        } else {
            Err(CommsError::ProtocolError)
        }
    }
}

pub const SM_VARIANT_CHUNK_COLUMN: u8 = 0;
pub const SM_VARIANT_SET_BLOCK: u8 = 1;
pub const SM_VARIANT_PLAYER_SPAWN: u8 = 2;
pub const SM_VARIANT_PLAYER_DESPAWN: u8 = 3;
pub const SM_VARIANT_POSITION_UPDATE: u8 = 4;
pub const SM_VARIANT_SIGN_IN_CONFIRM: u8 = 5;

/// The number of chunks of block data in a column message: the world height.
pub const COLUMN_CHUNKS: usize = 64;

/// A message from the server to a client.
#[derive(Debug, PartialEq)]
pub enum ServerMessage {
    SignInConfirm {
        player_id: u8,
        x: u32,
        y: u32,
        z: u32,
        yaw: u32,
        pitch: u32,
        inventory: Inventory,
        gametime: u32,
        block_registry: String,
        resource_registry: String,
    },
    ChunkColumn { col: ChunkColumnPos, block_data: Vec<Vec<u8>> },
    SetBlock { wbx: i16, wby: i16, wbz: i16, block: Block },
    PlayerSpawn { x: u32, y: u32, z: u32, yaw: u32, pitch: u32, player_id: u8, username: String },
    PositionUpdate { player_id: u8, x: u32, y: u32, z: u32, yaw: u32, pitch: u32 },
    PlayerDespawn { player_id: u8 },
}

/// The content of a server message.
pub enum ServerMessageView {
    SignInConfirm {
        player_id: u8,
        x: u32,
        y: u32,
        z: u32,
        yaw: u32,
        pitch: u32,
        inventory: Map<Block, u32>,
        gametime: u32,
        block_registry: Seq<char>,
        resource_registry: Seq<char>,
    },
    ChunkColumn { col: ChunkColumnPos, block_data: Seq<Seq<u8>> },
    SetBlock { wbx: i16, wby: i16, wbz: i16, block: Block },
    PlayerSpawn { x: u32, y: u32, z: u32, yaw: u32, pitch: u32, player_id: u8, username: Seq<char> },
    PositionUpdate { player_id: u8, x: u32, y: u32, z: u32, yaw: u32, pitch: u32 },
    PlayerDespawn { player_id: u8 },
}

impl View for ServerMessage {
    type V = ServerMessageView;

    open spec fn view(&self) -> ServerMessageView {
        match self {
            ServerMessage::SignInConfirm {
                player_id,
                x,
                y,
                z,
                yaw,
                pitch,
                inventory,
                gametime,
                block_registry,
                resource_registry,
            } => ServerMessageView::SignInConfirm {
                player_id: *player_id,
                x: *x,
                y: *y,
                z: *z,
                yaw: *yaw,
                pitch: *pitch,
                inventory: inventory@,
                gametime: *gametime,
                block_registry: block_registry@,
                resource_registry: resource_registry@,
            },
            ServerMessage::ChunkColumn { col, block_data } => ServerMessageView::ChunkColumn {
                col: *col,
                block_data: block_data@.map_values(|v: Vec<u8>| v@),
            },
            ServerMessage::SetBlock { wbx, wby, wbz, block } => ServerMessageView::SetBlock {
                wbx: *wbx,
                wby: *wby,
                wbz: *wbz,
                block: *block,
            },
            ServerMessage::PlayerSpawn { x, y, z, yaw, pitch, player_id, username } => ServerMessageView::PlayerSpawn {
                x: *x,
                y: *y,
                z: *z,
                yaw: *yaw,
                pitch: *pitch,
                player_id: *player_id,
                username: username@,
            },
            ServerMessage::PositionUpdate { player_id, x, y, z, yaw, pitch } => ServerMessageView::PositionUpdate {
                player_id: *player_id,
                x: *x,
                y: *y,
                z: *z,
                yaw: *yaw,
                pitch: *pitch,
            },
            ServerMessage::PlayerDespawn { player_id } => ServerMessageView::PlayerDespawn {
                player_id: *player_id,
            },
        }
    }
}

/// The encoding of chunks of block data: each one's length as a `u16`, then its bytes.
pub open spec fn enc_chunk_data(bd: Seq<Seq<u8>>) -> Seq<u8>
    decreases bd.len(),
{
    if bd.len() == 0 {
        Seq::empty()
    } else {
        enc_u16(bd[0].len() as u16) + bd[0] + enc_chunk_data(bd.drop_first())
    }
}

/// `k` chunks of block data from the front of `s`, and what follows them.
pub open spec fn parse_chunk_data(s: Seq<u8>, k: nat) -> Result<(Seq<Seq<u8>>, Seq<u8>), CommsError>
    decreases k,
{
    if k == 0 {
        Ok((Seq::empty(), s))
    } else {
        match parse_u16(s) {
            Ok((n, r)) => if r.len() >= n {
                match parse_chunk_data(r.skip(n as int), (k - 1) as nat) {
                    Ok((bd, r2)) => Ok((seq![r.take(n as int)] + bd, r2)),
                    Err(e) => Err(e),
                }
            } else {
                Err(CommsError::Disconnected)
            },
            Err(e) => Err(e),
        }
    }
}

/// Five `u32` values one after the other.
pub open spec fn enc_u32x5(a: u32, b: u32, c: u32, d: u32, e: u32) -> Seq<u8> {
    enc_u32(a) + enc_u32(b) + enc_u32(c) + enc_u32(d) + enc_u32(e)
}

/// The encoding of a server message, with its inventory, if it holds one, listed as `l`.
pub open spec fn enc_server(m: ServerMessageView, l: Seq<(Block, u32)>) -> Seq<u8> {
    match m {
        ServerMessageView::SignInConfirm {
            player_id,
            x,
            y,
            z,
            yaw,
            pitch,
            inventory,
            gametime,
            block_registry,
            resource_registry,
        } => enc_u8(SM_VARIANT_SIGN_IN_CONFIRM) + (enc_u8(player_id) + enc_u32x5(x, y, z, yaw, pitch)
            + (enc_inventory(l) + (enc_u32(gametime) + (enc_str(block_registry) + enc_str(
            resource_registry,
        ))))),
        ServerMessageView::ChunkColumn { col, block_data } => enc_u8(SM_VARIANT_CHUNK_COLUMN) + (
        enc_i16(col.x) + enc_i16(col.y) + enc_chunk_data(block_data.take(64))),
        ServerMessageView::SetBlock { wbx, wby, wbz, block } => enc_u8(SM_VARIANT_SET_BLOCK) + (
        enc_i16(wbx) + enc_i16(wby) + enc_i16(wbz) + enc_u32(block)),
        ServerMessageView::PlayerSpawn { x, y, z, yaw, pitch, player_id, username } => enc_u8(
            SM_VARIANT_PLAYER_SPAWN,
        ) + (enc_u32x5(x, y, z, yaw, pitch) + enc_u8(player_id) + enc_str(username)),
        ServerMessageView::PlayerDespawn { player_id } => enc_u8(SM_VARIANT_PLAYER_DESPAWN) + enc_u8(
            player_id,
        ),
        ServerMessageView::PositionUpdate { player_id, x, y, z, yaw, pitch } => enc_u8(
            SM_VARIANT_POSITION_UPDATE,
        ) + (enc_u32x5(x, y, z, yaw, pitch) + enc_u8(player_id)),
    }
}

/// The fields of a sign-in confirmation after its player id and position, from the front
/// of `s`: the inventory, the game time and the two registries.
pub open spec fn parse_sign_in_tail(s: Seq<u8>) -> Result<
    (Map<Block, u32>, u32, Seq<char>, Seq<char>, Seq<u8>),
    CommsError,
> {
    match parse_inventory(s) {
        Ok((inv, r1)) => match super::wire::parse_u32(r1) {
            Ok((gametime, r2)) => match parse_str(r2) {
                Ok((br, r3)) => match parse_str(r3) {
                    Ok((rr, r4)) => Ok((inv, gametime, br, rr, r4)),
                    Err(e) => Err(e),
                },
                Err(e) => Err(e),
            },
            Err(e) => Err(e),
        },
        Err(e) => Err(e),
    }
}

/// A server message from the front of `s`, and what follows it.
pub open spec fn parse_server(s: Seq<u8>) -> Result<(ServerMessageView, Seq<u8>), CommsError> {
    match parse_u8(s) {
        Err(e) => Err(e),
        Ok((tag, r)) => if tag == SM_VARIANT_SIGN_IN_CONFIRM {
            if r.len() >= 21 {
                match parse_sign_in_tail(r.skip(21)) {
                    Ok((inv, gametime, br, rr, r2)) => Ok(
                        (
                            ServerMessageView::SignInConfirm {
                                player_id: r[0],
                                x: u32_at(r, 1),
                                y: u32_at(r, 5),
                                z: u32_at(r, 9),
                                yaw: u32_at(r, 13),
                                pitch: u32_at(r, 17),
                                inventory: inv,
                                gametime,
                                block_registry: br,
                                resource_registry: rr,
                            },
                            r2,
                        ),
                    ),
                    Err(e) => Err(e),
                }
            } else {
                Err(CommsError::Disconnected)
            }
        } else if tag == SM_VARIANT_CHUNK_COLUMN {
            if r.len() >= 4 {
                match parse_chunk_data(r.skip(4), 64) {
                    Ok((bd, r2)) => Ok(
                        (
                            ServerMessageView::ChunkColumn {
                                col: ChunkColumnPos { x: i16_at(r, 0), y: i16_at(r, 2) },
                                block_data: bd,
                            },
                            r2,
                        ),
                    ),
                    Err(e) => Err(e),
                }
            } else {
                Err(CommsError::Disconnected)
            }
        } else if tag == SM_VARIANT_SET_BLOCK {
            if r.len() >= 10 {
                Ok(
                    (
                        ServerMessageView::SetBlock {
                            wbx: i16_at(r, 0),
                            wby: i16_at(r, 2),
                            wbz: i16_at(r, 4),
                            block: u32_at(r, 6),
                        },
                        r.skip(10),
                    ),
                )
            } else {
                Err(CommsError::Disconnected)
            }
        } else if tag == SM_VARIANT_PLAYER_SPAWN {
            if r.len() >= 21 {
                match parse_str(r.skip(21)) {
                    Ok((u, r2)) => Ok(
                        (
                            ServerMessageView::PlayerSpawn {
                                x: u32_at(r, 0),
                                y: u32_at(r, 4),
                                z: u32_at(r, 8),
                                yaw: u32_at(r, 12),
                                pitch: u32_at(r, 16),
                                player_id: r[20],
                                username: u,
                            },
                            r2,
                        ),
                    ),
                    Err(e) => Err(e),
                }
            } else {
                Err(CommsError::Disconnected)
            }
        } else if tag == SM_VARIANT_PLAYER_DESPAWN {
            if r.len() >= 1 {
                Ok((ServerMessageView::PlayerDespawn { player_id: r[0] }, r.skip(1)))
            } else {
                Err(CommsError::Disconnected)
            }
        } else if tag == SM_VARIANT_POSITION_UPDATE {
            if r.len() >= 21 {
                Ok(
                    (
                        ServerMessageView::PositionUpdate {
                            player_id: r[20],
                            x: u32_at(r, 0),
                            y: u32_at(r, 4),
                            z: u32_at(r, 8),
                            yaw: u32_at(r, 12),
                            pitch: u32_at(r, 16),
                        },
                        r.skip(21),
                    ),
                )
            } else {
                Err(CommsError::Disconnected)
            }
        } else {
            Err(CommsError::ProtocolError)
        },
    }
}

/// The fields after the position of a sign-in confirmation can be read: the inventory's
/// counts add up, and the registries, when all there, are valid UTF-8.
pub open spec fn sign_in_tail_decodable(s: Seq<u8>) -> bool {
    &&& inventory_decodable(s)
    &&& parse_inventory(s) matches Ok((_, r1)) ==> (super::wire::parse_u32(r1) matches Ok((_, r2)) ==> {
        &&& str_valid(r2)
        &&& parse_str(r2) matches Ok((_, r3)) ==> str_valid(r3)
    })
}

/// The server message at the front of `s` can be read: its inventory's counts add up and
/// its strings are valid UTF-8.
pub open spec fn server_decodable(s: Seq<u8>) -> bool {
    match parse_u8(s) {
        Ok((tag, r)) => {
            &&& tag == SM_VARIANT_SIGN_IN_CONFIRM && r.len() >= 21 ==> sign_in_tail_decodable(r.skip(21))
            &&& tag == SM_VARIANT_PLAYER_SPAWN && r.len() >= 21 ==> str_valid(r.skip(21))
        },
        Err(_) => true,
    }
}

/// A server message fits the encoding: its strings are short enough, its inventory is
/// countable in a `u32`, and a column message has block data for every chunk of the world
/// height, each shorter than `u16::MAX`.
pub open spec fn server_fits(m: ServerMessageView) -> bool {
    match m {
        ServerMessageView::SignInConfirm { inventory, block_registry, resource_registry, .. } => {
            &&& str_fits(block_registry)
            &&& str_fits(resource_registry)
            &&& inventory.len() <= u32::MAX
        },
        ServerMessageView::ChunkColumn { block_data, .. } => {
            &&& block_data.len() >= 64
            &&& forall|i: int| 0 <= i < 64 ==> (#[trigger] block_data[i]).len() < 65535
        },
        ServerMessageView::PlayerSpawn { username, .. } => str_fits(username),
        _ => true,
    }
}

/// Encoded block data parses back, whatever follows it.
#[verifier::spinoff_prover]
#[verifier::rlimit(40)]
proof fn lemma_parse_chunk_data(bd: Seq<Seq<u8>>, rest: Seq<u8>)
    requires
        forall|i: int| 0 <= i < bd.len() ==> (#[trigger] bd[i]).len() < 65535,
    ensures
        parse_chunk_data(enc_chunk_data(bd) + rest, bd.len()) == Ok::<(Seq<Seq<u8>>, Seq<u8>), CommsError>((bd, rest)),
    decreases bd.len(),
{
    if bd.len() == 0 {
        assert(enc_chunk_data(bd) + rest =~= rest);
        assert(bd =~= Seq::<Seq<u8>>::empty());
    } else {
        let d = bd[0];
        let tail = bd.drop_first();
        assert forall|i: int| 0 <= i < tail.len() implies (#[trigger] tail[i]).len() < 65535 by {
            assert(tail[i] == bd[i + 1]);
        }
        lemma_parse_chunk_data(tail, rest);
        let n = d.len() as u16;
        let s = enc_chunk_data(bd) + rest;
        assert(s =~= enc_u16(n) + (d + (enc_chunk_data(tail) + rest)));
        lemma_parse_enc(d + (enc_chunk_data(tail) + rest), 0, n, 0, 0);
        let r = d + (enc_chunk_data(tail) + rest);
        assert(r.take(n as int) =~= d);
        assert(r.skip(n as int) =~= enc_chunk_data(tail) + rest);
        assert(seq![d] + tail =~= bd);
    }
}

/// Twenty bytes of five encoded `u32` values, from index `i`, read back as them.
proof fn lemma_u32x5_at(s: Seq<u8>, i: int, a: u32, b: u32, c: u32, d: u32, e: u32)
    requires
        0 <= i,
        i + 20 <= s.len(),
        s.subrange(i, i + 20) == enc_u32x5(a, b, c, d, e),
    ensures
        u32_at(s, i) == a,
        u32_at(s, i + 4) == b,
        u32_at(s, i + 8) == c,
        u32_at(s, i + 12) == d,
        u32_at(s, i + 16) == e,
{
    lemma_u32_fields(a, b, c, d, e, Seq::empty());
    let t = enc_u32x5(a, b, c, d, e) + Seq::<u8>::empty();
    assert(t =~= enc_u32x5(a, b, c, d, e));
    assert forall|j: int| 0 <= j < 20 implies s[i + j] == t[j] by {
        assert(s.subrange(i, i + 20)[j] == s[i + j]);
    }
}

proof fn lemma_sign_in_tail(
    l: Seq<(Block, u32)>,
    inventory: Map<Block, u32>,
    gametime: u32,
    block_registry: Seq<char>,
    resource_registry: Seq<char>,
    rest: Seq<u8>,
)
    requires
        lists(l, inventory),
        inventory.len() <= u32::MAX,
        str_fits(block_registry),
        str_fits(resource_registry),
    ensures
        ({
            let t = enc_inventory(l) + (enc_u32(gametime) + (enc_str(block_registry) + (enc_str(resource_registry) + rest)));
            &&& parse_sign_in_tail(t) == Ok::<(Map<Block, u32>, u32, Seq<char>, Seq<char>, Seq<u8>), CommsError>(
                (inventory, gametime, block_registry, resource_registry, rest),
            )
            &&& sign_in_tail_decodable(t)
        }),
{
    let t4 = enc_str(resource_registry) + rest;
    let t3 = enc_str(block_registry) + t4;
    let t2 = enc_u32(gametime) + t3;
    lemma_inventory_roundtrip(l, inventory, t2);
    lemma_parse_enc(t3, 0, 0, 0, gametime);
    lemma_parse_enc_str(block_registry, t4);
    lemma_parse_enc_str(resource_registry, rest);
}

#[verifier::spinoff_prover]
#[verifier::rlimit(60)]
proof fn lemma_server_sign_in_roundtrip(m: ServerMessageView, l: Seq<(Block, u32)>, rest: Seq<u8>)
    requires
        m is SignInConfirm,
        server_fits(m),
        lists(l, m->SignInConfirm_inventory),
    ensures
        parse_server(enc_server(m, l) + rest) == Ok::<(ServerMessageView, Seq<u8>), CommsError>((m, rest)),
        server_decodable(enc_server(m, l) + rest),
{
    match m {
        ServerMessageView::SignInConfirm {
            player_id,
            x,
            y,
            z,
            yaw,
            pitch,
            inventory,
            gametime,
            block_registry,
            resource_registry,
        } => {
            let t4 = enc_str(resource_registry) + rest;
            let t3 = enc_str(block_registry) + t4;
            let t2 = enc_u32(gametime) + t3;
            let t1 = enc_inventory(l) + t2;
            let head = enc_u8(player_id) + enc_u32x5(x, y, z, yaw, pitch);
            let r = head + t1;
            let s = enc_server(m, l) + rest;
            assert(s =~= enc_u8(SM_VARIANT_SIGN_IN_CONFIRM) + r);
            lemma_parse_enc(r, SM_VARIANT_SIGN_IN_CONFIRM, 0, 0, 0);
            assert(r.skip(21) =~= t1);
            assert(r[0] == player_id);
            assert(r.subrange(1, 21) =~= enc_u32x5(x, y, z, yaw, pitch));
            lemma_u32x5_at(r, 1, x, y, z, yaw, pitch);
            lemma_sign_in_tail(l, inventory, gametime, block_registry, resource_registry, rest);
        },
        _ => {},
    }
}

#[verifier::spinoff_prover]
#[verifier::rlimit(60)]
proof fn lemma_server_column_roundtrip(m: ServerMessageView, rest: Seq<u8>)
    requires
        m matches ServerMessageView::ChunkColumn { block_data, .. } && block_data.len() == 64,
        server_fits(m),
    ensures
        parse_server(enc_server(m, Seq::empty()) + rest) == Ok::<(ServerMessageView, Seq<u8>), CommsError>((m, rest)),
{
    match m {
        ServerMessageView::ChunkColumn { col, block_data } => {
            assert(block_data.take(64) =~= block_data);
            let t = enc_chunk_data(block_data) + rest;
            let r = enc_i16(col.x) + enc_i16(col.y) + t;
            let s = enc_server(m, Seq::empty()) + rest;
            assert(s =~= enc_u8(SM_VARIANT_CHUNK_COLUMN) + r);
            lemma_parse_enc(r, SM_VARIANT_CHUNK_COLUMN, 0, 0, 0);
            lemma_i16_codec(col.x);
            lemma_i16_codec(col.y);
            assert(r.subrange(0, 2) =~= enc_i16(col.x));
            assert(r.subrange(2, 4) =~= enc_i16(col.y));
            assert(r.skip(4) =~= t);
            lemma_parse_chunk_data(block_data, rest);
        },
        _ => {},
    }
}

#[verifier::spinoff_prover]
#[verifier::rlimit(60)]
proof fn lemma_server_spawn_roundtrip(m: ServerMessageView, rest: Seq<u8>)
    requires
        m is PlayerSpawn,
        server_fits(m),
    ensures
        parse_server(enc_server(m, Seq::empty()) + rest) == Ok::<(ServerMessageView, Seq<u8>), CommsError>((m, rest)),
        server_decodable(enc_server(m, Seq::empty()) + rest),
{
    match m {
        ServerMessageView::PlayerSpawn { x, y, z, yaw, pitch, player_id, username } => {
            let t = enc_str(username) + rest;
            let r = enc_u32x5(x, y, z, yaw, pitch) + enc_u8(player_id) + t;
            let s = enc_server(m, Seq::empty()) + rest;
            assert(s =~= enc_u8(SM_VARIANT_PLAYER_SPAWN) + r);
            lemma_parse_enc(r, SM_VARIANT_PLAYER_SPAWN, 0, 0, 0);
            assert(r.subrange(0, 20) =~= enc_u32x5(x, y, z, yaw, pitch));
            lemma_u32x5_at(r, 0, x, y, z, yaw, pitch);
            assert(r[20] == player_id);
            assert(r.skip(21) =~= t);
            lemma_parse_enc_str(username, rest);
        },
        _ => {},
    }
}

#[verifier::spinoff_prover]
#[verifier::rlimit(60)]
proof fn lemma_server_set_block_roundtrip(m: ServerMessageView, rest: Seq<u8>)
    requires
        m is SetBlock,
    ensures
        parse_server(enc_server(m, Seq::empty()) + rest) == Ok::<(ServerMessageView, Seq<u8>), CommsError>((m, rest)),
{
    let s = enc_server(m, Seq::empty()) + rest;
    match m {
        ServerMessageView::SetBlock { wbx, wby, wbz, block } => {
            let r = enc_i16(wbx) + enc_i16(wby) + enc_i16(wbz) + enc_u32(block) + rest;
            assert(s =~= enc_u8(SM_VARIANT_SET_BLOCK) + r);
            lemma_parse_enc(r, SM_VARIANT_SET_BLOCK, 0, 0, 0);
            lemma_i16_codec(wbx);
            lemma_i16_codec(wby);
            lemma_i16_codec(wbz);
            lemma_int_codec(0, block);
            assert(r.subrange(0, 2) =~= enc_i16(wbx));
            assert(r.subrange(2, 4) =~= enc_i16(wby));
            assert(r.subrange(4, 6) =~= enc_i16(wbz));
            assert(r.subrange(6, 10) =~= enc_u32(block));
            assert(r.skip(10) =~= rest);
        },
        _ => {},
    }
}

#[verifier::spinoff_prover]
#[verifier::rlimit(60)]
proof fn lemma_server_despawn_roundtrip(m: ServerMessageView, rest: Seq<u8>)
    requires
        m is PlayerDespawn,
    ensures
        parse_server(enc_server(m, Seq::empty()) + rest) == Ok::<(ServerMessageView, Seq<u8>), CommsError>((m, rest)),
{
    let s = enc_server(m, Seq::empty()) + rest;
    match m {
        ServerMessageView::PlayerDespawn { player_id } => {
            let r = enc_u8(player_id) + rest;
            assert(s =~= enc_u8(SM_VARIANT_PLAYER_DESPAWN) + r);
            lemma_parse_enc(r, SM_VARIANT_PLAYER_DESPAWN, 0, 0, 0);
            assert(r.skip(1) =~= rest);
        },
        _ => {},
    }
}

#[verifier::spinoff_prover]
#[verifier::rlimit(60)]
proof fn lemma_server_position_roundtrip(m: ServerMessageView, rest: Seq<u8>)
    requires
        m is PositionUpdate,
    ensures
        parse_server(enc_server(m, Seq::empty()) + rest) == Ok::<(ServerMessageView, Seq<u8>), CommsError>((m, rest)),
{
    let s = enc_server(m, Seq::empty()) + rest;
    match m {
        ServerMessageView::PositionUpdate { player_id, x, y, z, yaw, pitch } => {
            let r = enc_u32x5(x, y, z, yaw, pitch) + enc_u8(player_id) + rest;
            assert(s =~= enc_u8(SM_VARIANT_POSITION_UPDATE) + r);
            lemma_parse_enc(r, SM_VARIANT_POSITION_UPDATE, 0, 0, 0);
            assert(r.subrange(0, 20) =~= enc_u32x5(x, y, z, yaw, pitch));
            lemma_u32x5_at(r, 0, x, y, z, yaw, pitch);
            assert(r[20] == player_id);
            assert(r.skip(21) =~= rest);
        },
        _ => {},
    }
}

/// A server message, with a column message carrying exactly the world height of chunks,
/// that fits the encoding decodes from its encoding, for any listing of its inventory,
/// whatever follows it.
pub proof fn lemma_server_roundtrip(m: ServerMessageView, l: Seq<(Block, u32)>, rest: Seq<u8>)
    requires
        server_fits(m),
        m matches ServerMessageView::ChunkColumn { block_data, .. } ==> block_data.len() == 64,
        m matches ServerMessageView::SignInConfirm { inventory, .. } ==> lists(l, inventory),
    ensures
        parse_server(enc_server(m, l) + rest) == Ok::<(ServerMessageView, Seq<u8>), CommsError>((m, rest)),
        server_decodable(enc_server(m, l) + rest),
{
    if m is SignInConfirm {
        lemma_server_sign_in_roundtrip(m, l, rest);
    } else {
        assert(enc_server(m, l) == enc_server(m, Seq::empty()));
        if m is ChunkColumn {
            lemma_server_column_roundtrip(m, rest);
        } else if m is PlayerSpawn {
            lemma_server_spawn_roundtrip(m, rest);
        } else if m is SetBlock {
            lemma_server_set_block_roundtrip(m, rest);
        } else if m is PlayerDespawn {
            lemma_server_despawn_roundtrip(m, rest);
        } else {
            lemma_server_position_roundtrip(m, rest);
        }
        let s = enc_server(m, Seq::empty()) + rest;
        lemma_parse_enc(s.skip(1), s[0], 0, 0, 0);
    }
}

/// Appending a chunk of block data appends its encoding.
proof fn lemma_enc_chunk_data_push(bd: Seq<Seq<u8>>, d: Seq<u8>)
    ensures
        enc_chunk_data(bd.push(d)) == enc_chunk_data(bd) + (enc_u16(d.len() as u16) + d),
    decreases bd.len(),
{
    let t = bd.push(d);
    if bd.len() == 0 {
        assert(t.drop_first() =~= Seq::<Seq<u8>>::empty());
        assert(enc_chunk_data(t.drop_first()) == Seq::<u8>::empty());
        assert(t[0] == d);
        assert(enc_chunk_data(t) =~= enc_chunk_data(bd) + (enc_u16(d.len() as u16) + d));
    } else {
        lemma_enc_chunk_data_push(bd.drop_first(), d);
        assert(t.drop_first() =~= bd.drop_first().push(d));
        assert(t[0] == bd[0]);
        assert(enc_chunk_data(t) =~= enc_chunk_data(bd) + (enc_u16(d.len() as u16) + d));
    }
}

/// Read `k` chunks of block data at `pos`.
fn read_chunk_data(b: &[u8], pos: usize, k: usize) -> (r: Result<(Vec<Vec<u8>>, usize), CommsError>)
    requires
        pos <= b.len(),
    ensures
        match r {
            Ok((bd, p)) => p <= b.len() && parse_chunk_data(b@.skip(pos as int), k as nat) == Ok::<(Seq<Seq<u8>>, Seq<u8>), CommsError>((bd@.map_values(|v: Vec<u8>| v@), b@.skip(p as int))),
            Err(e) => parse_chunk_data(b@.skip(pos as int), k as nat) == Err::<(Seq<Seq<u8>>, Seq<u8>), CommsError>(e),
        },
{
    let mut block_data: Vec<Vec<u8>> = Vec::new();
    let mut p: usize = pos;
    let mut z: usize = 0;
    while z < k
        invariant
            z <= k,
            pos <= p <= b.len(),
            block_data.len() == z,
            match parse_chunk_data(b@.skip(p as int), (k - z) as nat) {
                Ok((o, rr)) => parse_chunk_data(b@.skip(pos as int), k as nat) == Ok::<(Seq<Seq<u8>>, Seq<u8>), CommsError>((block_data@.map_values(|v: Vec<u8>| v@) + o, rr)),
                Err(e) => parse_chunk_data(b@.skip(pos as int), k as nat) == Err::<(Seq<Seq<u8>>, Seq<u8>), CommsError>(e),
            },
        decreases k - z,
    {
        let ghost sp = b@.skip(p as int);
        let (length, p1) = match read_u16(b, p) {
            Ok(v) => v,
            Err(e) => return Err(e),
        };
        proof {
            assert(b@.skip(p1 as int).len() == sp.skip(2).len());
            assert(b@.skip(p1 as int) =~= sp.skip(2));
        }
        if b.len() - p1 < length as usize {
            return Err(CommsError::Disconnected);
        }
        let end = p1 + length as usize;
        let blocks = copy_bytes(b, p1, end);
        proof {
            assert(blocks@ =~= sp.skip(2).take(length as int));
            assert(b@.skip(end as int) =~= sp.skip(2).skip(length as int));
        }
        let ghost before = block_data@.map_values(|v: Vec<u8>| v@);
        block_data.push(blocks);
        proof {
            assert(block_data@.map_values(|v: Vec<u8>| v@) =~= before.push(blocks@));
            match parse_chunk_data(b@.skip(end as int), (k - z - 1) as nat) {
                Ok((o, rr)) => {
                    assert(before + (seq![blocks@] + o) =~= block_data@.map_values(|v: Vec<u8>| v@) + o);
                },
                Err(_) => {},
            }
        }
        p = end;
        z = z + 1;
    }
    proof {
        assert(block_data@.map_values(|v: Vec<u8>| v@) + Seq::<Seq<u8>>::empty() =~= block_data@.map_values(|v: Vec<u8>| v@));
    }
    Ok((block_data, p))
}

impl ServerMessage {
    /// Append the encoding of the message to `writer`; an inventory goes in the order its
    /// map hands the entries out.
    #[verifier::spinoff_prover]
    #[verifier::rlimit(80)]
    pub fn serialize_into_writer(&self, writer: &mut Vec<u8>) -> (r: Result<(), CommsError>)
        requires
            server_fits(self@),
        ensures
            r is Ok,
            exists|l: Seq<(Block, u32)>|
                (self@ matches ServerMessageView::SignInConfirm { inventory, .. } ==> lists(l, inventory))
                    && final(writer)@ == old(writer)@ + #[trigger] enc_server(self@, l),
    {
        let ghost mut listing: Seq<(Block, u32)> = Seq::empty();
        match self {
            ServerMessage::SignInConfirm {
                player_id,
                x,
                y,
                z,
                yaw,
                pitch,
                inventory,
                gametime,
                block_registry,
                resource_registry,
            } => {
                write_u8(writer, SM_VARIANT_SIGN_IN_CONFIRM);
                write_u8(writer, *player_id);
                write_u32(writer, *x);
                write_u32(writer, *y);
                write_u32(writer, *z);
                write_u32(writer, *yaw);
                write_u32(writer, *pitch);
                let ghost before = writer@;
                let _ = inventory.write_to(writer);
                proof {
                    listing = choose|l: Seq<(Block, u32)>| lists(l, inventory@) && writer@ == before + enc_inventory(l);
                }
                write_u32(writer, *gametime);
                write_string(writer, block_registry);
                write_string(writer, resource_registry);
            },
            ServerMessage::ChunkColumn { col, block_data } => {
                write_u8(writer, SM_VARIANT_CHUNK_COLUMN);
                write_i16(writer, col.x);
                write_i16(writer, col.y);
                let ghost start = writer@;
                let ghost bd = block_data@.map_values(|v: Vec<u8>| v@);
                let mut z: usize = 0;
                proof {
                    assert(bd.take(0) =~= Seq::<Seq<u8>>::empty());
                    assert(writer@ =~= start + enc_chunk_data(bd.take(0)));
                }
                while z < COLUMN_CHUNKS
                    invariant
                        z <= 64,
                        block_data.len() >= 64,
                        bd == block_data@.map_values(|v: Vec<u8>| v@),
                        forall|i: int| 0 <= i < 64 ==> (#[trigger] bd[i]).len() < 65535,
                        writer@ == start + enc_chunk_data(bd.take(z as int)),
                    decreases 64 - z,
                {
                    let blocks = &block_data[z];
                    proof {
                        assert(bd[z as int] == blocks@);
                    }
                    write_u16(writer, blocks.len() as u16);
                    write_bytes(writer, blocks.as_slice());
                    proof {
                        lemma_enc_chunk_data_push(bd.take(z as int), blocks@);
                        assert(bd.take(z as int).push(blocks@) =~= bd.take(z + 1));
                        assert(writer@ =~= start + enc_chunk_data(bd.take(z + 1)));
                    }
                    z = z + 1;
                }
            },
            ServerMessage::SetBlock { wbx, wby, wbz, block } => {
                write_u8(writer, SM_VARIANT_SET_BLOCK);
                write_i16(writer, *wbx);
                write_i16(writer, *wby);
                write_i16(writer, *wbz);
                write_u32(writer, *block);
            },
            ServerMessage::PlayerSpawn { x, y, z, yaw, pitch, player_id, username } => {
                write_u8(writer, SM_VARIANT_PLAYER_SPAWN);
                write_u32(writer, *x);
                write_u32(writer, *y);
                write_u32(writer, *z);
                write_u32(writer, *yaw);
                write_u32(writer, *pitch);
                write_u8(writer, *player_id);
                write_string(writer, username);
            },
            ServerMessage::PlayerDespawn { player_id } => {
                write_u8(writer, SM_VARIANT_PLAYER_DESPAWN);
                write_u8(writer, *player_id);
            },
            ServerMessage::PositionUpdate { x, y, z, yaw, pitch, player_id } => {
                write_u8(writer, SM_VARIANT_POSITION_UPDATE);
                write_u32(writer, *x);
                write_u32(writer, *y);
                write_u32(writer, *z);
                write_u32(writer, *yaw);
                write_u32(writer, *pitch);
                write_u8(writer, *player_id);
            },
        }
        proof {
            assert(final(writer)@ =~= old(writer)@ + enc_server(self@, listing));
        }
        Ok(())
    }

    /// Read a message from the front of `reader`; returns it and the number of bytes it took.
    pub fn deserialize_from_reader(reader: &[u8]) -> (r: Result<(ServerMessage, usize), CommsError>)
        requires
            server_decodable(reader@),
        ensures
            server_read_agrees(r, reader@),
    {
        let b = reader;
        proof {
            assert(b@.skip(0) =~= b@);
        }
        let (enum_variant, _p) = match read_u8(b, 0) {
            Ok(v) => v,
            Err(e) => return Err(e),
        };
        if enum_variant == SM_VARIANT_SIGN_IN_CONFIRM {
            read_sign_in_confirm(b)
        } else if enum_variant == SM_VARIANT_CHUNK_COLUMN {
            read_chunk_column(b)
        } else if enum_variant == SM_VARIANT_SET_BLOCK {
            read_set_block(b)
        } else if enum_variant == SM_VARIANT_PLAYER_SPAWN {
            read_player_spawn(b)
        } else if enum_variant == SM_VARIANT_PLAYER_DESPAWN {
            read_player_despawn(b)
        } else if enum_variant == SM_VARIANT_POSITION_UPDATE {
            read_position_update(b)
        } else {
            Err(CommsError::ProtocolError)
        }
    }
}

/// Whether a read server message, with the number of bytes it took, agrees with the
/// parse of `b`.
pub open spec fn server_read_agrees(r: Result<(ServerMessage, usize), CommsError>, b: Seq<u8>) -> bool {
    match r {
        Ok((m, n)) => n <= b.len() && parse_server(b) == Ok::<(ServerMessageView, Seq<u8>), CommsError>((m@, b.skip(n as int))),
        Err(e) => parse_server(b) == Err::<(ServerMessageView, Seq<u8>), CommsError>(e),
    }
}

/// Read the fields of a message whose variant byte at the front of `b` is `SM_VARIANT_SIGN_IN_CONFIRM`.
#[verifier::spinoff_prover]
#[verifier::rlimit(60)]
fn read_sign_in_confirm(b: &[u8]) -> (r: Result<(ServerMessage, usize), CommsError>)
    requires
        b.len() >= 1,
        b@[0] == SM_VARIANT_SIGN_IN_CONFIRM,
        server_decodable(b@),
    ensures
        server_read_agrees(r, b@),
{
    let p: usize = 1;
    let ghost r = b@.skip(1);
    proof {
        assert(parse_u8(b@) == Ok::<(u8, Seq<u8>), CommsError>((SM_VARIANT_SIGN_IN_CONFIRM, r)));
    }
    if b.len() - p < 21 {
        return Err(CommsError::Disconnected);
    }
    let (player_id, p0) = read_u8(b, p).unwrap();
    let (x, p1) = read_u32(b, p0).unwrap();
    let (y, p2) = read_u32(b, p1).unwrap();
    let (z, p3) = read_u32(b, p2).unwrap();
    let (yaw, p4) = read_u32(b, p3).unwrap();
    let (pitch, p5) = read_u32(b, p4).unwrap();
    proof {
        assert(b@.skip(p0 as int).len() == b@.len() - 2);
        assert(b@.skip(p1 as int).len() == b@.len() - 6);
        assert(b@.skip(p2 as int).len() == b@.len() - 10);
        assert(b@.skip(p3 as int).len() == b@.len() - 14);
        assert(b@.skip(p4 as int).len() == b@.len() - 18);
        assert(b@.skip(p5 as int).len() == b@.len() - 22);
        assert(b@.skip(p5 as int) =~= r.skip(21));
    }
    let ghost t = b@.skip(p5 as int);
    let (inventory, q1) = match Inventory::read_from(b, p5) {
        Ok(v) => v,
        Err(e) => return Err(e),
    };
    let (gametime, q2) = match read_u32(b, q1) {
        Ok(v) => v,
        Err(e) => return Err(e),
    };
    let (block_registry, q3) = match read_string(b, q2) {
        Ok(v) => v,
        Err(e) => return Err(e),
    };
    let (resource_registry, q4) = match read_string(b, q3) {
        Ok(v) => v,
        Err(e) => return Err(e),
    };
    Ok(
        (
            ServerMessage::SignInConfirm {
                player_id,
                x,
                y,
                z,
                yaw,
                pitch,
                inventory,
                gametime,
                block_registry,
                resource_registry,
            },
            q4,
        ),
    )
}

/// Read the fields of a message whose variant byte at the front of `b` is `SM_VARIANT_CHUNK_COLUMN`.
#[verifier::spinoff_prover]
#[verifier::rlimit(60)]
fn read_chunk_column(b: &[u8]) -> (r: Result<(ServerMessage, usize), CommsError>)
    requires
        b.len() >= 1,
        b@[0] == SM_VARIANT_CHUNK_COLUMN,
        server_decodable(b@),
    ensures
        server_read_agrees(r, b@),
{
    let p: usize = 1;
    let ghost r = b@.skip(1);
    proof {
        assert(parse_u8(b@) == Ok::<(u8, Seq<u8>), CommsError>((SM_VARIANT_CHUNK_COLUMN, r)));
    }
    if b.len() - p < 4 {
        return Err(CommsError::Disconnected);
    }
    let (x, p1) = read_i16(b, p).unwrap();
    let (y, p2) = read_i16(b, p1).unwrap();
    proof {
        assert(b@.skip(p1 as int).len() == b@.len() - 3);
        assert(b@.skip(p2 as int).len() == b@.len() - 5);
        assert(b@.skip(p2 as int) =~= r.skip(4));
    }
    let col = ChunkColumnPos { x, y };
    let (block_data, p3) = match read_chunk_data(b, p2, COLUMN_CHUNKS) {
        Ok(v) => v,
        Err(e) => return Err(e),
    };
    Ok((ServerMessage::ChunkColumn { col, block_data }, p3))
}

/// Read the fields of a message whose variant byte at the front of `b` is `SM_VARIANT_SET_BLOCK`.
#[verifier::spinoff_prover]
#[verifier::rlimit(60)]
fn read_set_block(b: &[u8]) -> (r: Result<(ServerMessage, usize), CommsError>)
    requires
        b.len() >= 1,
        b@[0] == SM_VARIANT_SET_BLOCK,
        server_decodable(b@),
    ensures
        server_read_agrees(r, b@),
{
    let p: usize = 1;
    let ghost r = b@.skip(1);
    proof {
        assert(parse_u8(b@) == Ok::<(u8, Seq<u8>), CommsError>((SM_VARIANT_SET_BLOCK, r)));
    }
    if b.len() - p < 10 {
        return Err(CommsError::Disconnected);
    }
    let (wbx, p1) = read_i16(b, p).unwrap();
    let (wby, p2) = read_i16(b, p1).unwrap();
    let (wbz, p3) = read_i16(b, p2).unwrap();
    let (block, p4) = read_u32(b, p3).unwrap();
    proof {
        assert(b@.skip(p1 as int).len() == b@.len() - 3);
        assert(b@.skip(p2 as int).len() == b@.len() - 5);
        assert(b@.skip(p3 as int).len() == b@.len() - 7);
        assert(b@.skip(p4 as int).len() == b@.len() - 11);
        assert(b@.skip(p4 as int) =~= r.skip(10));
    }
    Ok((ServerMessage::SetBlock { wbx, wby, wbz, block }, p4))
}

/// Read the fields of a message whose variant byte at the front of `b` is `SM_VARIANT_PLAYER_SPAWN`.
#[verifier::spinoff_prover]
#[verifier::rlimit(60)]
fn read_player_spawn(b: &[u8]) -> (r: Result<(ServerMessage, usize), CommsError>)
    requires
        b.len() >= 1,
        b@[0] == SM_VARIANT_PLAYER_SPAWN,
        server_decodable(b@),
    ensures
        server_read_agrees(r, b@),
{
    let p: usize = 1;
    let ghost r = b@.skip(1);
    proof {
        assert(parse_u8(b@) == Ok::<(u8, Seq<u8>), CommsError>((SM_VARIANT_PLAYER_SPAWN, r)));
    }
    if b.len() - p < 21 {
        return Err(CommsError::Disconnected);
    }
    let (x, p1) = read_u32(b, p).unwrap();
    let (y, p2) = read_u32(b, p1).unwrap();
    let (z, p3) = read_u32(b, p2).unwrap();
    let (yaw, p4) = read_u32(b, p3).unwrap();
    let (pitch, p5) = read_u32(b, p4).unwrap();
    let (player_id, p6) = read_u8(b, p5).unwrap();
    proof {
        assert(b@.skip(p1 as int).len() == b@.len() - 5);
        assert(b@.skip(p2 as int).len() == b@.len() - 9);
        assert(b@.skip(p3 as int).len() == b@.len() - 13);
        assert(b@.skip(p4 as int).len() == b@.len() - 17);
        assert(b@.skip(p5 as int).len() == b@.len() - 21);
        assert(b@.skip(p6 as int).len() == b@.len() - 22);
        assert(b@.skip(p6 as int) =~= r.skip(21));
    }
    let (username, p7) = match read_string(b, p6) {
        Ok(v) => v,
        Err(e) => return Err(e),
    };
    Ok((ServerMessage::PlayerSpawn { x, y, z, yaw, pitch, player_id, username }, p7))
}

/// Read the fields of a message whose variant byte at the front of `b` is `SM_VARIANT_PLAYER_DESPAWN`.
#[verifier::spinoff_prover]
#[verifier::rlimit(60)]
fn read_player_despawn(b: &[u8]) -> (r: Result<(ServerMessage, usize), CommsError>)
    requires
        b.len() >= 1,
        b@[0] == SM_VARIANT_PLAYER_DESPAWN,
        server_decodable(b@),
    ensures
        server_read_agrees(r, b@),
{
    let p: usize = 1;
    let ghost r = b@.skip(1);
    proof {
        assert(parse_u8(b@) == Ok::<(u8, Seq<u8>), CommsError>((SM_VARIANT_PLAYER_DESPAWN, r)));
    }
    let (player_id, p1) = match read_u8(b, p) {
        Ok(v) => v,
        Err(e) => return Err(e),
    };
    proof {
        assert(b@.skip(p1 as int).len() == b@.len() - 2);
        assert(b@.skip(p1 as int) =~= r.skip(1));
    }
    Ok((ServerMessage::PlayerDespawn { player_id }, p1))
}

/// Read the fields of a message whose variant byte at the front of `b` is `SM_VARIANT_POSITION_UPDATE`.
#[verifier::spinoff_prover]
#[verifier::rlimit(60)]
fn read_position_update(b: &[u8]) -> (r: Result<(ServerMessage, usize), CommsError>)
    requires
        b.len() >= 1,
        b@[0] == SM_VARIANT_POSITION_UPDATE,
        server_decodable(b@),
    ensures
        server_read_agrees(r, b@),
{
    let p: usize = 1;
    let ghost r = b@.skip(1);
    proof {
        assert(parse_u8(b@) == Ok::<(u8, Seq<u8>), CommsError>((SM_VARIANT_POSITION_UPDATE, r)));
    }
    if b.len() - p < 21 {
        return Err(CommsError::Disconnected);
    }
    let (x, p1) = read_u32(b, p).unwrap();
    let (y, p2) = read_u32(b, p1).unwrap();
    let (z, p3) = read_u32(b, p2).unwrap();
    let (yaw, p4) = read_u32(b, p3).unwrap();
    let (pitch, p5) = read_u32(b, p4).unwrap();
    let (player_id, p6) = read_u8(b, p5).unwrap();
    proof {
        assert(b@.skip(p1 as int).len() == b@.len() - 5);
        assert(b@.skip(p2 as int).len() == b@.len() - 9);
        assert(b@.skip(p3 as int).len() == b@.len() - 13);
        assert(b@.skip(p4 as int).len() == b@.len() - 17);
        assert(b@.skip(p5 as int).len() == b@.len() - 21);
        assert(b@.skip(p6 as int).len() == b@.len() - 22);
        assert(b@.skip(p6 as int) =~= r.skip(21));
    }
    Ok((ServerMessage::PositionUpdate { player_id, x, y, z, yaw, pitch }, p6))
}

/// Whether the column positions are all different.
fn columns_distinct(cs: &Vec<ChunkColumnPos>) -> (r: bool)
    ensures
        r == cs@.no_duplicates(),
{
    let mut i: usize = 0;
    while i < cs.len()
        invariant
            i <= cs.len(),
            forall|a: int, b: int| 0 <= a < b < cs.len() && a < i ==> cs@[a] != cs@[b],
        decreases cs.len() - i,
    {
        let mut j: usize = i + 1;
        while j < cs.len()
            invariant
                i < cs.len(),
                i + 1 <= j <= cs.len(),
                forall|a: int, b: int| 0 <= a < b < cs.len() && a < i ==> cs@[a] != cs@[b],
                forall|b: int| i < b < j ==> cs@[i as int] != cs@[b],
            decreases cs.len() - j,
        {
            if cs[i].x == cs[j].x && cs[i].y == cs[j].y {
                return false;
            }
            j += 1;
        }
        i += 1;
    }
    true
}

/// Whether the client message at the front of `bytes` can be read.
pub fn client_message_decodable(bytes: &[u8]) -> (r: bool)
    ensures
        r == client_decodable(bytes@),
{
    proof {
        assert(bytes@.skip(0) =~= bytes@);
    }
    if bytes.len() < 1 {
        return true;
    }
    let tag = bytes[0];
    proof {
        assert(bytes@.skip(1).len() == bytes.len() - 1);
    }
    if tag == CM_VARIANT_SIGN_IN {
        check_str_valid(bytes, 1)
    } else if tag == CM_VARIANT_UNSUBSCRIBE {
        let (size, p) = match read_u16(bytes, 1) {
            Ok(v) => v,
            Err(_) => return true,
        };
        proof {
            assert(bytes@.skip(p as int).len() == bytes@.skip(1).skip(2).len());
            assert(bytes@.skip(p as int) =~= bytes@.skip(1).skip(2));
        }
        match read_columns(bytes, p, size) {
            Ok((cs, _)) => columns_distinct(&cs),
            Err(_) => true,
        }
    } else {
        true
    }
}

/// Whether the server message at the front of `bytes` can be read.
pub fn server_message_decodable(bytes: &[u8]) -> (r: bool)
    ensures
        r == server_decodable(bytes@),
{
    proof {
        assert(bytes@.skip(0) =~= bytes@);
    }
    if bytes.len() < 1 {
        return true;
    }
    let tag = bytes[0];
    let ghost r = bytes@.skip(1);
    proof {
        assert(r.len() == bytes.len() - 1);
    }
    if tag == SM_VARIANT_SIGN_IN_CONFIRM {
        if bytes.len() - 1 < 21 {
            return true;
        }
        proof {
            assert(bytes@.skip(22) =~= r.skip(21));
        }
        if !Inventory::check_decodable(bytes, 22) {
            return false;
        }
        let q1 = match Inventory::read_from(bytes, 22) {
            Ok((_, q)) => q,
            Err(_) => return true,
        };
        let q2 = match read_u32(bytes, q1) {
            Ok((_, q)) => q,
            Err(_) => return true,
        };
        if !check_str_valid(bytes, q2) {
            return false;
        }
        match read_string(bytes, q2) {
            Ok((_, q3)) => check_str_valid(bytes, q3),
            Err(_) => true,
        }
    } else if tag == SM_VARIANT_PLAYER_SPAWN {
        if bytes.len() - 1 < 21 {
            return true;
        }
        proof {
            assert(bytes@.skip(22) =~= r.skip(21));
        }
        check_str_valid(bytes, 22)
    } else {
        true
    }
}

/// Whether a string's UTF-8 encoding is short enough for its length prefix.
fn string_fits(s: &String) -> (r: bool)
    ensures
        r == str_fits(s@),
{
    s.as_str().as_bytes().len() < 65535
}

impl ClientMessage {
    /// Whether the message fits the encoding: its username and column lists are short enough.
    pub fn fits(&self) -> (r: bool)
        ensures
            r == client_fits(self@),
    {
        match self {
            ClientMessage::SignIn { username } => string_fits(username),
            ClientMessage::Subscribe { columns } => columns.len() < 65535,
            ClientMessage::Unsubscribe { columns } => columns.len() < 65535,
            _ => true,
        }
    }
}

impl ServerMessage {
    /// Whether the message fits the encoding: its strings are short enough, its inventory
    /// countable in a `u32`, and a column message has short enough data for every chunk of
    /// the world height.
    pub fn fits(&self) -> (r: bool)
        ensures
            r == server_fits(self@),
    {
        match self {
            ServerMessage::SignInConfirm { inventory, block_registry, resource_registry, .. } => {
                string_fits(block_registry) && string_fits(resource_registry) && (inventory.blocks().len() as u64)
                    <= 0xFFFF_FFFFu64
            },
            ServerMessage::ChunkColumn { col, block_data } => {
                let ghost d = block_data@.map_values(|v: Vec<u8>| v@);
                assert(self@ == ServerMessageView::ChunkColumn { col: *col, block_data: d });
                if block_data.len() < 64 {
                    return false;
                }
                let mut i: usize = 0;
                while i < 64
                    invariant
                        i <= 64,
                        block_data.len() >= 64,
                        d == block_data@.map_values(|v: Vec<u8>| v@),
                        self@ == (ServerMessageView::ChunkColumn { col: *col, block_data: d }),
                        forall|j: int| 0 <= j < i ==> (#[trigger] block_data@[j]).len() < 65535,
                    decreases 64 - i,
                {
                    if block_data[i].len() >= 65535 {
                        assert(d[i as int] == block_data@[i as int]@);
                        assert(!server_fits(self@));
                        return false;
                    }
                    i += 1;
                }
                assert forall|j: int| 0 <= j < 64 implies (#[trigger] d[j]).len() < 65535 by {
                    assert(d[j] == block_data@[j]@);
                }
                true
            },
            ServerMessage::PlayerSpawn { username, .. } => string_fits(username),
            _ => true,
        }
    }
}

} // verus!
