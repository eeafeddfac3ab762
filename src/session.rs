//! The decisions of a client session: which command a byte names, what a
//! request holds, and what the registry does and replies for each request.
use vstd::prelude::*;
use crate::energy::{recv_accept, recv_in_range, recv_reject, send_amount};
use crate::fluid::{fluid_bytes, fluid_canonical, fluid_fits, inserted, FluidStack, FluidStackView};
use crate::gzip::{gunzip_of, gzip_compress, gzip_decompress, gzip_of};
use crate::item::{accept_count, extra_fits, header_fits, item_extra, item_header, take_count, ItemStack, ItemStackView};
use crate::registry::{fluid_map_after_take, fluid_take_result, get_or, Registry};
use crate::snapshot::{
    all_headers_readable, all_items_canonical, headers_of, item_extras_bytes, item_headers_bytes,
    read_item_extras, read_item_headers, stacks_view,
};
use crate::table::Frequency;
use crate::wire::{
    read_string,
    enc_i32, enc_i64, enc_string, has_prefix, lemma_prefix_split, string_fits, write_bytes, write_i32,
    write_i64, ByteReader, WireError,
};

verus! {

/// The version number a session greets its client with.
pub const CLIENT_VERSION: i64 = 7;

/// The commands a client sends, each as one byte.
#[derive(Clone, Copy, Debug, PartialEq, Eq, Structural)]
pub enum Command {
    Nop,
    SetFrequency,
    ItemFromClient,
    ItemToClient,
    FluidFromClient,
    FluidToClient,
    EnergyFromClient,
    EnergyToClient,
    SetHostName,
    PackStart,
    PackEnd,
}

/// The command that the byte `b` names, if any.
pub open spec fn command_of(b: i8) -> Option<Command> {
    if b == -1 {
        Some(Command::Nop)
    } else if b == 1 {
        Some(Command::SetFrequency)
    } else if b == 2 {
        Some(Command::ItemFromClient)
    } else if b == 3 {
        Some(Command::ItemToClient)
    } else if b == 4 {
        Some(Command::FluidFromClient)
    } else if b == 5 {
        Some(Command::FluidToClient)
    } else if b == 6 {
        Some(Command::EnergyFromClient)
    } else if b == 7 {
        Some(Command::EnergyToClient)
    } else if b == 8 {
        Some(Command::SetHostName)
    } else if b == 9 {
        Some(Command::PackStart)
    } else if b == 10 {
        Some(Command::PackEnd)
    } else {
        None
    }
}

impl Command {
    pub fn from_i8(b: i8) -> (r: Option<Command>)
        ensures
            r == command_of(b),
    {
        match b {
            -1 => Some(Command::Nop),
            1 => Some(Command::SetFrequency),
            2 => Some(Command::ItemFromClient),
            3 => Some(Command::ItemToClient),
            4 => Some(Command::FluidFromClient),
            5 => Some(Command::FluidToClient),
            6 => Some(Command::EnergyFromClient),
            7 => Some(Command::EnergyToClient),
            8 => Some(Command::SetHostName),
            9 => Some(Command::PackStart),
            10 => Some(Command::PackEnd),
            _ => None,
        }
    }
}

/// Why a session ends.
#[derive(Clone, Copy, Debug, PartialEq, Eq, Structural)]
pub enum SessionError {
    /// A frame could not be read or written.
    Wire(WireError),
    /// A gzip block could not be compressed or decompressed.
    Gzip,
    /// The decompressed item block does not hold what its count announces.
    BadBlock,
    /// A byte that names no command.
    UnknownCommand(i8),
    /// A transfer came before any frequency was set.
    NoFrequency,
    /// More stacks than a 32-bit count can carry.
    TooMany,
    /// The stored energy and the offer overflow 64-bit arithmetic.
    EnergyOverflow,
}

/// The reject indices `[a, n)`, each as a 32-bit integer.
pub open spec fn reject_indices(a: int, n: int) -> Seq<u8>
    decreases n - a,
{
    if n <= a {
        Seq::empty()
    } else {
        reject_indices(a, n - 1) + enc_i32((n - 1) as i32)
    }
}

/// The reply to an item offer of `n` stacks of which the first `a` were
/// accepted, before compression: the number rejected, then their indices.
pub open spec fn reject_bytes(n: i32, a: i32) -> Seq<u8> {
    enc_i32((n - a) as i32) + reject_indices(a as int, n as int)
}

/// Writes the uncompressed reply to an item offer of `n` stacks of which
/// the first `accepted` were taken.
pub fn reject_body(n: i32, accepted: i32) -> (r: Vec<u8>)
    requires
        0 <= accepted <= n,
    ensures
        r@ == reject_bytes(n, accepted),
{
    let mut w: Vec<u8> = Vec::new();
    write_i32(&mut w, n - accepted);
    let ghost head = w@;
    let mut i = accepted;
    while i < n
        invariant
            accepted <= i <= n,
            head == enc_i32((n - accepted) as i32),
            w@ == head + reject_indices(accepted as int, i as int),
        decreases n - i,
    {
        write_i32(&mut w, i);
        i = i + 1;
        assert(w@ =~= head + reject_indices(accepted as int, i as int));
    }
    w
}

/// The gzip stream of `body` is produced and its length fits a 32-bit field.
pub open spec fn gzip_frames(body: Seq<u8>) -> bool {
    gzip_of(body) matches Some(g) && g.len() <= i32::MAX
}

/// The gzip stream of `body`, framed by its length as a 32-bit integer.
pub open spec fn framed_gzip(body: Seq<u8>) -> Seq<u8> {
    match gzip_of(body) {
        Some(g) => enc_i32(g.len() as i32) + g,
        None => Seq::empty(),
    }
}

fn frame_gzip(w: &mut Vec<u8>, body: &[u8]) -> (r: Result<(), SessionError>)
    ensures
        r is Ok <==> gzip_frames(body@),
        r is Ok ==> final(w)@ == old(w)@ + framed_gzip(body@),
        r is Err ==> final(w)@ == old(w)@,
{
    let gz = match gzip_compress(body) {
        Some(g) => g,
        None => return Err(SessionError::Gzip),
    };
    if gz.len() > 0x7fff_ffff {
        return Err(SessionError::TooMany);
    }
    write_i32(w, gz.len() as i32);
    write_bytes(w, gz.as_slice());
    Ok(())
}

/// The state of one session that the protocol itself keeps: the frequency
/// its transfers go to.
pub struct Session {
    pub freq: Option<Frequency>,
}

/// What the caller records of a request beside the registry: the client's
/// host name, or the start or end of a timing window.
#[derive(Debug, PartialEq, Eq)]
pub enum MetaUpdate {
    Unchanged,
    HostName(String),
    PackStart,
    PackEnd,
}

impl Session {
    pub fn new() -> (r: Session)
        ensures
            r.freq is None,
    {
        Session { freq: None }
    }

    /// The frequency set last; a transfer before any is an error.
    pub fn freq(&self) -> (r: Result<&Frequency, SessionError>)
        ensures
            match self.freq {
                Some(f) => r == Ok::<&Frequency, SessionError>(&f),
                None => r == Err::<&Frequency, SessionError>(SessionError::NoFrequency),
            },
    {
        match &self.freq {
            Some(f) => Ok(f),
            None => Err(SessionError::NoFrequency),
        }
    }
}

/// The reply to a fluid request: the stack handed out, framed by its length,
/// or a zero length where none was.
pub open spec fn fluid_reply(t: Option<FluidStackView>) -> Seq<u8> {
    match t {
        None => enc_i32(0),
        Some(x) => enc_i32(fluid_bytes(x).len() as i32) + fluid_bytes(x),
    }
}

/// The reply to an item request that hands out `taken`: the gzip block of
/// their count and headers, framed by its length, then their payloads.
pub open spec fn item_reply(taken: Seq<ItemStackView>) -> Seq<u8> {
    framed_gzip(item_reply_block(taken)) + item_extras_bytes(taken)
}

/// The block of an item reply before compression: the count, then the headers.
pub open spec fn item_reply_block(taken: Seq<ItemStackView>) -> Seq<u8> {
    enc_i32(taken.len() as i32) + item_headers_bytes(taken)
}

/// An item reply can be written for `taken`: the count and every stack fit
/// their fields, and the block compresses to a stream whose length fits.
pub open spec fn item_reply_ok(taken: Seq<ItemStackView>) -> bool {
    &&& taken.len() <= i32::MAX
    &&& forall|j: int| 0 <= j < taken.len() ==> header_fits(#[trigger] taken[j]) && extra_fits(taken[j])
    &&& gzip_frames(item_reply_block(taken))
}

/// Whether a fluid reply can be written: nothing was handed out, or the
/// stack handed out fits its fields.
pub open spec fn fluid_reply_ok(t: Option<FluidStackView>) -> bool {
    match t {
        None => true,
        Some(x) => fluid_fits(x),
    }
}

/// Writes the reply to a fluid request.
pub fn write_fluid_reply(t: Option<FluidStack>) -> (r: Result<Vec<u8>, SessionError>)
    ensures
        match t {
            None => r is Ok,
            Some(x) => r is Ok <==> fluid_fits(x@),
        },
        r matches Ok(b) ==> b@ == fluid_reply(match t {
            None => None,
            Some(x) => Some(x@),
        }),
{
    match t {
        None => {
            let mut w: Vec<u8> = Vec::new();
            write_i32(&mut w, 0);
            Ok(w)
        },
        Some(x) => {
            let mut payload: Vec<u8> = Vec::new();
            match x.write(&mut payload) {
                Ok(()) => {},
                Err(e) => return Err(SessionError::Wire(e)),
            }
            proof {
                assert(payload@ =~= fluid_bytes(x@));
                crate::wire::lemma_string_len_bound(x@.name);
            }
            let mut w: Vec<u8> = Vec::new();
            write_i32(&mut w, payload.len() as i32);
            write_bytes(&mut w, payload.as_slice());
            Ok(w)
        },
    }
}

/// Writes the reply to an item request that hands out `taken`.
pub fn write_item_reply(taken: &Vec<ItemStack>) -> (r: Result<Vec<u8>, SessionError>)
    ensures
        r is Ok <==> item_reply_ok(stacks_view(taken@)),
        r matches Ok(b) ==> b@ == item_reply(stacks_view(taken@)),
{
    let ghost tv = stacks_view(taken@);
    if taken.len() > 0x7fff_ffff {
        return Err(SessionError::TooMany);
    }
    let mut body: Vec<u8> = Vec::new();
    write_i32(&mut body, taken.len() as i32);
    let ghost b0 = body@;
    let mut j: usize = 0;
    while j < taken.len()
        invariant
            j <= taken@.len(),
            tv == stacks_view(taken@),
            forall|k: int| 0 <= k < j ==> header_fits(#[trigger] tv[k]),
            body@ == b0 + item_headers_bytes(tv.take(j as int)),
        decreases taken@.len() - j,
    {
        match taken[j].write(&mut body) {
            Ok(()) => {},
            Err(e) => {
                assert(!header_fits(tv[j as int]));
                return Err(SessionError::Wire(e));
            },
        }
        proof {
            crate::snapshot::lemma_concat_map_step(tv, |x: ItemStackView| item_header(x), j as int);
            assert(body@ =~= b0 + item_headers_bytes(tv.take(j + 1)));
        }
        j = j + 1;
    }
    assert(tv.take(j as int) =~= tv);
    assert(body@ == item_reply_block(tv));
    let mut w: Vec<u8> = Vec::new();
    frame_gzip(&mut w, body.as_slice())?;
    let ghost w1 = w@;
    let mut j: usize = 0;
    while j < taken.len()
        invariant
            j <= taken@.len(),
            tv == stacks_view(taken@),
            forall|k: int| 0 <= k < taken@.len() ==> header_fits(#[trigger] tv[k]),
            forall|k: int| 0 <= k < j ==> extra_fits(#[trigger] tv[k]),
            w@ == w1 + item_extras_bytes(tv.take(j as int)),
        decreases taken@.len() - j,
    {
        match taken[j].write_extra(&mut w) {
            Ok(()) => {},
            Err(e) => {
                assert(!extra_fits(tv[j as int]));
                return Err(SessionError::Wire(e));
            },
        }
        proof {
            crate::snapshot::lemma_concat_map_step(tv, |x: ItemStackView| item_extra(x), j as int);
            assert(w@ =~= w1 + item_extras_bytes(tv.take(j + 1)));
        }
        j = j + 1;
    }
    assert(tv.take(j as int) =~= tv);
    Ok(w)
}

impl Registry {
    /// Offers client stacks to the item buffer of `freq` and writes the reply:
    /// the gzip block of the indices that were rejected, framed by its length.
    pub fn item_from_client(&mut self, freq: &Frequency, stacks: Vec<ItemStack>) -> (r: Result<Vec<u8>, SessionError>)
        requires
            old(self).wf(),
        ensures
            final(self).wf(),
            stacks@.len() > i32::MAX ==> r == Err::<Vec<u8>, SessionError>(SessionError::TooMany)
                && final(self).item_map() == old(self).item_map(),
            stacks@.len() <= i32::MAX ==> ({
                let held = get_or(old(self).item_map(), freq.0@, Seq::empty());
                let a = accept_count(held.len(), stacks@.len());
                &&& final(self).item_map() == old(self).item_map().insert(
                    freq.0@,
                    held + stacks@.take(a as int),
                )
                &&& r is Ok <==> gzip_frames(reject_bytes(stacks@.len() as i32, a as i32))
                &&& r matches Ok(b) ==> b@ == framed_gzip(
                    reject_bytes(stacks@.len() as i32, a as i32),
                )
            }),
            final(self).fluid_map() == old(self).fluid_map(),
            final(self).energy_map() == old(self).energy_map(),
    {
        if stacks.len() > 0x7fff_ffff {
            return Err(SessionError::TooMany);
        }
        let n = stacks.len() as i32;
        let mut offered = stacks;
        self.insert_items(freq, &mut offered);
        let accepted = n - offered.len() as i32;
        let body = reject_body(n, accepted);
        let mut w: Vec<u8> = Vec::new();
        frame_gzip(&mut w, body.as_slice())?;
        Ok(w)
    }

    /// Takes up to `max_stacks` stacks from the item buffer of `freq` and
    /// writes the reply; a frequency with no item buffer gets a zero length.
    /// Where the reply cannot be written the stacks stay in the buffer.
    pub fn item_to_client(&mut self, freq: &Frequency, max_stacks: i32) -> (r: Result<Vec<u8>, SessionError>)
        requires
            old(self).wf(),
        ensures
            final(self).wf(),
            !old(self).item_map().contains_key(freq.0@) ==> (r matches Ok(b) && b@ == enc_i32(0))
                && final(self).item_map() == old(self).item_map(),
            old(self).item_map().contains_key(freq.0@) ==> ({
                let held = old(self).item_map()[freq.0@];
                let k = take_count(held.len(), max_stacks) as int;
                &&& r is Ok <==> item_reply_ok(stacks_view(held.take(k)))
                &&& r matches Ok(b) ==> b@ == item_reply(stacks_view(held.take(k)))
                    && final(self).item_map() == old(self).item_map().insert(freq.0@, held.skip(k))
                &&& r is Err ==> final(self).item_map() == old(self).item_map()
            }),
            final(self).fluid_map() == old(self).fluid_map(),
            final(self).energy_map() == old(self).energy_map(),
    {
        match self.take_items(freq, max_stacks) {
            None => {
                let mut w: Vec<u8> = Vec::new();
                write_i32(&mut w, 0);
                Ok(w)
            },
            Some(taken) => match write_item_reply(&taken) {
                Ok(b) => Ok(b),
                Err(e) => {
                    let ghost mid = self.item_map();
                    let ghost held = old(self).item_map()[freq.0@];
                    let ghost k = take_count(held.len(), max_stacks) as int;
                    self.merge_items(freq.copy(), taken);
                    proof {
                        assert(mid.contains_key(freq.0@));
                        assert(held.take(k) + held.skip(k) =~= held);
                        assert(self.item_map() =~= old(self).item_map());
                    }
                    Err(e)
                },
            },
        }
    }

    /// Draws fluid for a client from the fluid buffer of `freq` and writes
    /// the reply.
    pub fn fluid_to_client(&mut self, freq: &Frequency, request: FluidStack) -> (r: Result<Vec<u8>, SessionError>)
        requires
            old(self).wf(),
        ensures
            final(self).wf(),
            final(self).fluid_map() == fluid_map_after_take(old(self).fluid_map(), freq.0@, request@),
            r is Ok <==> fluid_reply_ok(fluid_take_result(old(self).fluid_map(), freq.0@, request@)),
            r matches Ok(b) ==> b@ == fluid_reply(
                fluid_take_result(old(self).fluid_map(), freq.0@, request@),
            ),
            final(self).item_map() == old(self).item_map(),
            final(self).energy_map() == old(self).energy_map(),
    {
        let t = self.take_fluid(freq, request);
        write_fluid_reply(t)
    }
}

/// A command with its payload, as a client sent it.
#[derive(Debug)]
pub enum Request {
    Nop,
    SetFrequency(Frequency),
    ItemFromClient(Vec<ItemStack>),
    ItemToClient(i32),
    FluidFromClient(FluidStack),
    FluidToClient(FluidStack),
    EnergyFromClient(i64),
    EnergyToClient(i64),
    SetHostName(String),
    PackStart,
    PackEnd,
}

/// An item offer: the command byte, the gzip block framed by its length,
/// then the out-of-band payloads of the stacks the block announces.
pub open spec fn item_offer_bytes(gz: Seq<u8>, m: Seq<ItemStackView>) -> Seq<u8> {
    seq![2u8] + enc_i32(gz.len() as i32) + gz + item_extras_bytes(m)
}

/// The gzip block `gz` announces the stacks `m`: it decompresses to their
/// count and headers, perhaps followed by more bytes.
pub open spec fn block_announces(gz: Seq<u8>, m: Seq<ItemStackView>) -> bool {
    gunzip_of(gz) matches Some(b) && has_prefix(
        b,
        0,
        enc_i32(m.len() as i32) + item_headers_bytes(m),
    )
}

/// An item offer that reads back as the stacks `m`.
pub open spec fn offer_ok(gz: Seq<u8>, m: Seq<ItemStackView>) -> bool {
    gz.len() <= i32::MAX && m.len() <= i32::MAX && all_items_canonical(m) && block_announces(gz, m)
}

fn read_block(gz: Vec<u8>) -> (res: Result<Vec<ItemStack>, SessionError>)
    ensures
        forall|m: Seq<ItemStackView>|
            m.len() <= i32::MAX && all_headers_readable(m) && #[trigger] block_announces(gz@, m)
                ==> (res matches Ok(v) && stacks_view(v@) == headers_of(m)),
{
    let block = match gzip_decompress(gz.as_slice()) {
        Some(b) => b,
        None => return Err(SessionError::Gzip),
    };
    let ghost data = block@;
    let mut br = ByteReader::new(block);
    proof {
        assert forall|m: Seq<ItemStackView>|
            m.len() <= i32::MAX && all_headers_readable(m) && #[trigger] block_announces(gz@, m) implies
            has_prefix(data, 0, enc_i32(m.len() as i32)) && has_prefix(data, 4, item_headers_bytes(m)) by {
            lemma_prefix_split(data, 0, enc_i32(m.len() as i32), item_headers_bytes(m));
        }
    }
    let n = match br.read_i32() {
        Ok(n) => n,
        Err(_) => return Err(SessionError::BadBlock),
    };
    match read_item_headers(&mut br, n) {
        Ok(v) => Ok(v),
        Err(_) => Err(SessionError::BadBlock),
    }
}

/// Reads one request: a command byte and its payload.
pub fn read_request(r: &mut ByteReader) -> (res: Result<Request, SessionError>)
    requires
        old(r).wf(),
    ensures
        final(r).wf(),
        final(r).buf@ == old(r).buf@,
        old(r).pos >= old(r).buf@.len() ==> res == Err::<Request, SessionError>(
            SessionError::Wire(WireError::Truncated),
        ),
        forall|b: u8|
            #[trigger] has_prefix(old(r).buf@, old(r).pos as int, seq![b]) && command_of(b as i8)
                is None ==> res == Err::<Request, SessionError>(
                SessionError::UnknownCommand(b as i8),
            ) && final(r).pos == old(r).pos + 1,
        has_prefix(old(r).buf@, old(r).pos as int, seq![0xffu8]) ==> (res matches Ok(Request::Nop))
            && final(r).pos == old(r).pos + 1,
        has_prefix(old(r).buf@, old(r).pos as int, seq![9u8]) ==> (res matches Ok(
            Request::PackStart,
        )) && final(r).pos == old(r).pos + 1,
        has_prefix(old(r).buf@, old(r).pos as int, seq![10u8]) ==> (res matches Ok(
            Request::PackEnd,
        )) && final(r).pos == old(r).pos + 1,
        forall|s: Seq<char>|
            string_fits(s) && #[trigger] has_prefix(
                old(r).buf@,
                old(r).pos as int,
                seq![1u8] + enc_string(s),
            ) ==> (res matches Ok(Request::SetFrequency(f)) && f.0@ == s) && final(r).pos == old(r).pos
                + 1 + enc_string(s).len(),
        forall|s: Seq<char>|
            string_fits(s) && #[trigger] has_prefix(
                old(r).buf@,
                old(r).pos as int,
                seq![8u8] + enc_string(s),
            ) ==> (res matches Ok(Request::SetHostName(h)) && h@ == s) && final(r).pos == old(r).pos + 1
                + enc_string(s).len(),
        forall|v: i32| #[trigger]
            has_prefix(old(r).buf@, old(r).pos as int, seq![3u8] + enc_i32(v)) ==> (res matches Ok(
                Request::ItemToClient(x),
            ) && x == v) && final(r).pos == old(r).pos + 5,
        forall|v: i64| #[trigger]
            has_prefix(old(r).buf@, old(r).pos as int, seq![6u8] + enc_i64(v)) ==> (res matches Ok(
                Request::EnergyFromClient(x),
            ) && x == v) && final(r).pos == old(r).pos + 9,
        forall|v: i64| #[trigger]
            has_prefix(old(r).buf@, old(r).pos as int, seq![7u8] + enc_i64(v)) ==> (res matches Ok(
                Request::EnergyToClient(x),
            ) && x == v) && final(r).pos == old(r).pos + 9,
        forall|x: FluidStackView|
            fluid_canonical(x) && #[trigger] has_prefix(
                old(r).buf@,
                old(r).pos as int,
                seq![4u8] + fluid_bytes(x),
            ) ==> (res matches Ok(Request::FluidFromClient(t)) && t@ == x) && final(r).pos == old(r).pos
                + 1 + fluid_bytes(x).len(),
        forall|x: FluidStackView|
            fluid_canonical(x) && #[trigger] has_prefix(
                old(r).buf@,
                old(r).pos as int,
                seq![5u8] + fluid_bytes(x),
            ) ==> (res matches Ok(Request::FluidToClient(t)) && t@ == x) && final(r).pos == old(r).pos
                + 1 + fluid_bytes(x).len(),
        forall|gz: Seq<u8>, m: Seq<ItemStackView>|
            offer_ok(gz, m) && #[trigger] has_prefix(old(r).buf@, old(r).pos as int, item_offer_bytes(gz, m))
                ==> (res matches Ok(Request::ItemFromClient(v)) && stacks_view(v@) == m) && final(r).pos
                == old(r).pos + item_offer_bytes(gz, m).len(),
{
    let ghost data = r.buf@;
    let ghost at0 = r.pos as int;
    let b = match r.read_u8() {
        Ok(b) => b,
        Err(e) => return Err(SessionError::Wire(e)),
    };
    let ghost at1 = r.pos as int;
    proof {
        assert forall|c: u8, t: Seq<u8>| #[trigger] has_prefix(data, at0, seq![c] + t) implies c == b
            && has_prefix(data, at1, t) by {
            lemma_prefix_split(data, at0, seq![c], t);
            assert(data.subrange(at0, at0 + 1)[0] == c);
            assert(data.subrange(at0, at0 + 1)[0] == b);
        }
        assert forall|c: u8| #[trigger] has_prefix(data, at0, seq![c]) implies c == b by {
            assert(data.subrange(at0, at0 + 1)[0] == c);
            assert(data.subrange(at0, at0 + 1)[0] == b);
        }
        assert((0xffu8 as i8) == -1i8) by (bit_vector);
        assert forall|gz: Seq<u8>, m: Seq<ItemStackView>|
            #[trigger] has_prefix(data, at0, item_offer_bytes(gz, m)) implies b == 2u8 by {
            lemma_prefix_split(
                data,
                at0,
                seq![2u8],
                enc_i32(gz.len() as i32) + gz + item_extras_bytes(m),
            );
            assert(item_offer_bytes(gz, m) =~= seq![2u8] + (enc_i32(gz.len() as i32) + gz
                + item_extras_bytes(m)));
        }
    }
    match Command::from_i8(b as i8) {
        None => Err(SessionError::UnknownCommand(b as i8)),
        Some(Command::Nop) => Ok(Request::Nop),
        Some(Command::PackStart) => Ok(Request::PackStart),
        Some(Command::PackEnd) => Ok(Request::PackEnd),
        Some(Command::SetFrequency) => match read_string(r) {
            Ok(s) => Ok(Request::SetFrequency(Frequency(s))),
            Err(e) => Err(SessionError::Wire(e)),
        },
        Some(Command::SetHostName) => match read_string(r) {
            Ok(s) => Ok(Request::SetHostName(s)),
            Err(e) => Err(SessionError::Wire(e)),
        },
        Some(Command::ItemToClient) => match r.read_i32() {
            Ok(v) => Ok(Request::ItemToClient(v)),
            Err(e) => Err(SessionError::Wire(e)),
        },
        Some(Command::EnergyFromClient) => match r.read_i64() {
            Ok(v) => Ok(Request::EnergyFromClient(v)),
            Err(e) => Err(SessionError::Wire(e)),
        },
        Some(Command::EnergyToClient) => match r.read_i64() {
            Ok(v) => Ok(Request::EnergyToClient(v)),
            Err(e) => Err(SessionError::Wire(e)),
        },
        Some(Command::FluidFromClient) => match FluidStack::read(r) {
            Ok(x) => Ok(Request::FluidFromClient(x)),
            Err(e) => Err(SessionError::Wire(e)),
        },
        Some(Command::FluidToClient) => match FluidStack::read(r) {
            Ok(x) => Ok(Request::FluidToClient(x)),
            Err(e) => Err(SessionError::Wire(e)),
        },
        Some(Command::ItemFromClient) => {
            proof {
                assert forall|gz: Seq<u8>, m: Seq<ItemStackView>|
                    #[trigger] has_prefix(data, at0, item_offer_bytes(gz, m)) implies has_prefix(
                        data,
                        at1,
                        enc_i32(gz.len() as i32),
                    ) && has_prefix(data, at1 + 4, gz) && has_prefix(
                        data,
                        at1 + 4 + gz.len(),
                        item_extras_bytes(m),
                    ) by {
                    lemma_prefix_split(
                        data,
                        at0,
                        seq![2u8] + enc_i32(gz.len() as i32) + gz,
                        item_extras_bytes(m),
                    );
                    lemma_prefix_split(data, at0, seq![2u8] + enc_i32(gz.len() as i32), gz);
                    lemma_prefix_split(data, at0, seq![2u8], enc_i32(gz.len() as i32));
                }
            }
            let len = match r.read_i32() {
                Ok(v) => v,
                Err(e) => {
                    proof {
                        assert forall|gz: Seq<u8>, m: Seq<ItemStackView>|
                            offer_ok(gz, m) && #[trigger] has_prefix(data, at0, item_offer_bytes(gz, m))
                                implies false by {}
                    }
                    return Err(SessionError::Wire(e));
                },
            };
            if len < 0 {
                proof {
                    assert forall|gz: Seq<u8>, m: Seq<ItemStackView>|
                        offer_ok(gz, m) && #[trigger] has_prefix(data, at0, item_offer_bytes(gz, m))
                            implies false by {
                        assert(len == gz.len() as i32);
                    }
                }
                return Err(SessionError::Wire(WireError::NegativeLength));
            }
            let gz = match r.read_bytes(len as usize) {
                Ok(v) => v,
                Err(e) => {
                    proof {
                        assert forall|gz: Seq<u8>, m: Seq<ItemStackView>|
                            offer_ok(gz, m) && #[trigger] has_prefix(data, at0, item_offer_bytes(gz, m))
                                implies false by {
                            assert(len == gz.len() as i32);
                        }
                    }
                    return Err(SessionError::Wire(e));
                },
            };
            let ghost g0 = gz@;
            proof {
                assert forall|g: Seq<u8>, m: Seq<ItemStackView>|
                    offer_ok(g, m) && #[trigger] has_prefix(data, at0, item_offer_bytes(g, m))
                        implies g == g0 && all_headers_readable(m) && r.pos == at1 + 4 + g.len() by {
                    assert(len == g.len() as i32);
                    assert forall|k: int| 0 <= k < m.len() implies crate::item::header_readable(#[trigger] m[k]) by {
                        assert(crate::item::item_canonical(m[k]));
                    }
                }
            }
            let headers = match read_block(gz) {
                Ok(h) => h,
                Err(e) => {
                    proof {
                        assert forall|g: Seq<u8>, m: Seq<ItemStackView>|
                            offer_ok(g, m) && #[trigger] has_prefix(data, at0, item_offer_bytes(g, m))
                                implies false by {
                            assert(block_announces(g0, m));
                        }
                    }
                    return Err(e);
                },
            };
            proof {
                assert forall|g: Seq<u8>, m: Seq<ItemStackView>|
                    offer_ok(g, m) && #[trigger] has_prefix(data, at0, item_offer_bytes(g, m))
                        implies stacks_view(headers@) == headers_of(m) by {
                    assert(block_announces(g0, m));
                }
            }
            let ghost hv = headers@;
            match read_item_extras(r, headers) {
                Ok(v) => {
                    proof {
                        assert forall|g: Seq<u8>, m: Seq<ItemStackView>|
                            offer_ok(g, m) && #[trigger] has_prefix(data, at0, item_offer_bytes(g, m))
                                implies stacks_view(v@) == m by {
                            assert(has_prefix(data, at1 + 4 + g.len(), item_extras_bytes(m)));
                        }
                    }
                    Ok(Request::ItemFromClient(v))
                },
                Err(e) => {
                    proof {
                        assert forall|g: Seq<u8>, m: Seq<ItemStackView>|
                            offer_ok(g, m) && #[trigger] has_prefix(data, at0, item_offer_bytes(g, m))
                                implies false by {
                            assert(has_prefix(data, at1 + 4 + g.len(), item_extras_bytes(m)));
                        }
                    }
                    Err(SessionError::Wire(e))
                },
            }
        },
    }
}

/// What a session hands back for a request: the bytes to send, and what
/// to record of the client.
#[derive(Debug)]
pub struct Reply {
    pub bytes: Vec<u8>,
    pub meta: MetaUpdate,
}

impl Registry {
    /// Serves one request of a session: sets its frequency, moves resources
    /// between the client and the buffers of that frequency, and writes the
    /// reply. A transfer before any frequency is set ends the session.
    pub fn serve(&mut self, session: &mut Session, req: Request) -> (r: Result<Reply, SessionError>)
        requires
            old(self).wf(),
        ensures
            final(self).wf(),
            match req {
                Request::SetFrequency(f) => final(session).freq == Some(f),
                _ => final(session).freq == old(session).freq,
            },
            match req {
                Request::Nop => r matches Ok(x) && x.bytes@.len() == 0 && x.meta is Unchanged,
                Request::SetFrequency(_) => r matches Ok(x) && x.bytes@.len() == 0 && x.meta is Unchanged,
                Request::SetHostName(h) => r matches Ok(x) && x.bytes@.len() == 0 && x.meta == MetaUpdate::HostName(h),
                Request::PackStart => r matches Ok(x) && x.bytes@.len() == 0 && x.meta is PackStart,
                Request::PackEnd => r matches Ok(x) && x.bytes@.len() == 0 && x.meta is PackEnd,
                _ => old(session).freq is None ==> r == Err::<Reply, SessionError>(SessionError::NoFrequency),
            },
            old(session).freq is None || !(req is ItemFromClient || req is ItemToClient) ==> final(self).item_map() == old(self).item_map(),
            old(session).freq is None || !(req is FluidFromClient || req is FluidToClient) ==> final(self).fluid_map() == old(self).fluid_map(),
            old(session).freq is None || !(req is EnergyFromClient || req is EnergyToClient) ==> final(self).energy_map() == old(self).energy_map(),
            old(session).freq matches Some(f) ==> match req {
                Request::ItemFromClient(stacks) => stacks@.len() <= i32::MAX ==> ({
                    let held = get_or(old(self).item_map(), f.0@, Seq::empty());
                    let a = accept_count(held.len(), stacks@.len());
                    &&& final(self).item_map() == old(self).item_map().insert(
                        f.0@,
                        held + stacks@.take(a as int),
                    )
                    &&& r is Ok <==> gzip_frames(reject_bytes(stacks@.len() as i32, a as i32))
                    &&& r matches Ok(x) ==> x.bytes@ == framed_gzip(
                        reject_bytes(stacks@.len() as i32, a as i32),
                    )
                }),
                Request::ItemToClient(max_stacks) => if old(self).item_map().contains_key(f.0@) {
                    let held = old(self).item_map()[f.0@];
                    let k = take_count(held.len(), max_stacks) as int;
                    &&& r is Ok <==> item_reply_ok(stacks_view(held.take(k)))
                    &&& r matches Ok(x) ==> x.bytes@ == item_reply(stacks_view(held.take(k)))
                        && final(self).item_map() == old(self).item_map().insert(f.0@, held.skip(k))
                    &&& r is Err ==> final(self).item_map() == old(self).item_map()
                } else {
                    r matches Ok(x) && x.bytes@ == enc_i32(0)
                },
                Request::FluidFromClient(stack) => {
                    &&& final(self).fluid_map() == old(self).fluid_map().insert(
                        f.0@,
                        inserted(get_or(old(self).fluid_map(), f.0@, Seq::empty()), stack@),
                    )
                    &&& r matches Ok(x) && x.bytes@.len() == 0
                },
                Request::FluidToClient(request) => {
                    &&& final(self).fluid_map() == fluid_map_after_take(old(self).fluid_map(), f.0@, request@)
                    &&& r is Ok <==> fluid_reply_ok(fluid_take_result(old(self).fluid_map(), f.0@, request@))
                    &&& r matches Ok(x) ==> x.bytes@ == fluid_reply(
                        fluid_take_result(old(self).fluid_map(), f.0@, request@),
                    )
                },
                Request::EnergyFromClient(offered) => {
                    let cur = get_or(old(self).energy_map(), f.0@, 0i64);
                    if recv_in_range(cur) {
                        &&& r matches Ok(x) && x.bytes@ == enc_i64(recv_reject(cur, offered) as i64)
                        &&& if cur + recv_accept(cur, offered) == 0 {
                            final(self).energy_map() == old(self).energy_map().remove(f.0@)
                        } else {
                            final(self).energy_map() == old(self).energy_map().insert(
                                f.0@,
                                (cur + recv_accept(cur, offered)) as i64,
                            )
                        }
                    } else {
                        r == Err::<Reply, SessionError>(SessionError::EnergyOverflow)
                    }
                },
                Request::EnergyToClient(want) => {
                    let cur = get_or(old(self).energy_map(), f.0@, 0i64);
                    &&& r matches Ok(x) && x.bytes@ == enc_i64(send_amount(cur, want))
                    &&& if cur - send_amount(cur, want) > 0 {
                        final(self).energy_map() == old(self).energy_map().insert(
                            f.0@,
                            (cur - send_amount(cur, want)) as i64,
                        )
                    } else {
                        final(self).energy_map() == old(self).energy_map().remove(f.0@)
                    }
                },
                _ => true,
            },
    {
        let done = |bytes: Vec<u8>| -> (x: Reply)
            ensures
                x.bytes@ == bytes@ && x.meta is Unchanged,
            { Reply { bytes, meta: MetaUpdate::Unchanged } };
        match req {
            Request::Nop => Ok(done(Vec::new())),
            Request::SetFrequency(f) => {
                session.freq = Some(f);
                Ok(done(Vec::new()))
            },
            Request::SetHostName(h) => Ok(Reply { bytes: Vec::new(), meta: MetaUpdate::HostName(h) }),
            Request::PackStart => Ok(Reply { bytes: Vec::new(), meta: MetaUpdate::PackStart }),
            Request::PackEnd => Ok(Reply { bytes: Vec::new(), meta: MetaUpdate::PackEnd }),
            Request::ItemFromClient(stacks) => {
                let f = session.freq()?;
                let b = self.item_from_client(f, stacks)?;
                Ok(done(b))
            },
            Request::ItemToClient(max_stacks) => {
                let f = session.freq()?;
                let b = self.item_to_client(f, max_stacks)?;
                Ok(done(b))
            },
            Request::FluidFromClient(stack) => {
                let f = session.freq()?;
                self.insert_fluid(f, stack);
                Ok(done(Vec::new()))
            },
            Request::FluidToClient(request) => {
                let f = session.freq()?;
                let b = self.fluid_to_client(f, request)?;
                Ok(done(b))
            },
            Request::EnergyFromClient(offered) => {
                let f = session.freq()?;
                match self.receive_energy(f, offered) {
                    Some(reject) => {
                        let mut w: Vec<u8> = Vec::new();
                        write_i64(&mut w, reject);
                        Ok(done(w))
                    },
                    None => Err(SessionError::EnergyOverflow),
                }
            },
            Request::EnergyToClient(want) => {
                let f = session.freq()?;
                let sent = self.send_energy(f, want);
                let mut w: Vec<u8> = Vec::new();
                write_i64(&mut w, sent);
                Ok(done(w))
            },
        }
    }
}

} // verus!
