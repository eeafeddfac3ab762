//! Item stacks, their wire form, and the bounded FIFO item buffer.
use vstd::prelude::*;
use crate::digest::{md5_digest, md5_of};
use crate::hex::{hex_upper, to_hex_string};
use crate::wire::{
    read_string,
    enc_i16, enc_i32, enc_string, has_prefix, lemma_prefix_split, string_fits, write_bytes,
    write_i16, write_i32, write_string, ByteReader, WireError,
};

verus! {

/// The most stacks an item buffer accepts from clients.
pub const ITEM_BUFFER_LIMIT: usize = 100;

/// An nbt payload kept gzip-compressed, as the client sent it.
#[derive(Clone, Debug, PartialEq, Eq, Hash)]
pub struct GzipNBT {
    data: Vec<u8>,
}

impl View for GzipNBT {
    type V = Seq<u8>;

    closed spec fn view(&self) -> Seq<u8> {
        self.data@
    }
}

impl GzipNBT {
    pub fn from_gzip(data: Vec<u8>) -> (r: GzipNBT)
        ensures
            r@ == data@,
    {
        GzipNBT { data }
    }

    pub fn as_gzip(&self) -> (r: &[u8])
        ensures
            r@ == self@,
    {
        self.data.as_slice()
    }
}

/// The nbt of an item stack: inline bytes, or a payload carried out of band.
#[derive(Clone, Debug, PartialEq, Eq, Hash)]
pub enum NBT {
    Raw(Vec<u8>),
    Extra(Option<GzipNBT>),
}

pub enum NbtView {
    Raw(Seq<u8>),
    Extra(Option<Seq<u8>>),
}

impl View for NBT {
    type V = NbtView;

    open spec fn view(&self) -> NbtView {
        match self {
            NBT::Raw(v) => NbtView::Raw(v@),
            NBT::Extra(None) => NbtView::Extra(None),
            NBT::Extra(Some(g)) => NbtView::Extra(Some(g@)),
        }
    }
}

pub open spec fn nbt_opt_view(n: Option<NBT>) -> Option<NbtView> {
    match n {
        None => None,
        Some(x) => Some(x@),
    }
}

/// What `hint` shows of an nbt: the raw bytes, or the digest of the gzip payload.
pub open spec fn nbt_hint(n: NbtView) -> Seq<char> {
    match n {
        NbtView::Raw(v) => hex_upper(v),
        NbtView::Extra(Some(g)) => hex_upper(md5_of(g)),
        NbtView::Extra(None) => Seq::empty(),
    }
}

impl NBT {
    /// A short text that tells payloads apart: hexadecimal of the raw bytes,
    /// or of the MD5 digest of the gzip payload; empty where none is held.
    pub fn hint(&self) -> (r: String)
        requires
            self matches NBT::Raw(v) ==> v@.len() <= usize::MAX / 2,
        ensures
            r@ == nbt_hint(self@),
    {
        match self {
            NBT::Raw(raw) => to_hex_string(raw.as_slice()),
            NBT::Extra(Some(gz)) => {
                let d = md5_digest(gz.as_gzip());
                to_hex_string(d.as_slice())
            },
            NBT::Extra(None) => String::new(),
        }
    }
}

/// A stack of items as the clients describe it.
#[derive(Clone, Debug, PartialEq, Eq, Hash)]
pub struct ItemStack {
    pub damage: i32,
    pub count: i32,
    pub id: String,
    pub nbt: Option<NBT>,
}

pub struct ItemStackView {
    pub id: Seq<char>,
    pub damage: i32,
    pub count: i32,
    pub nbt: Option<NbtView>,
}

impl View for ItemStack {
    type V = ItemStackView;

    open spec fn view(&self) -> ItemStackView {
        ItemStackView {
            id: self.id@,
            damage: self.damage,
            count: self.count,
            nbt: nbt_opt_view(self.nbt),
        }
    }
}

/// The nbt length field of a header, and the raw bytes that follow it.
pub open spec fn nbt_field(n: Option<NbtView>) -> Seq<u8> {
    match n {
        None => enc_i16(0),
        Some(NbtView::Raw(v)) => enc_i16(v.len() as i16) + v,
        Some(NbtView::Extra(_)) => enc_i16(-1i16),
    }
}

/// The bytes that stand for a stack in the stack array.
pub open spec fn item_header(s: ItemStackView) -> Seq<u8> {
    enc_string(s.id) + enc_i32(s.damage) + enc_i32(s.count) + nbt_field(s.nbt)
}

/// The bytes that stand for a stack in the extra region after the stack array.
pub open spec fn item_extra(s: ItemStackView) -> Seq<u8> {
    match s.nbt {
        Some(NbtView::Extra(Some(g))) => enc_i32(g.len() as i32) + g,
        _ => Seq::empty(),
    }
}

/// The header of a stack can be written: its id and raw nbt fit their length fields.
pub open spec fn header_fits(s: ItemStackView) -> bool {
    string_fits(s.id) && match s.nbt {
        Some(NbtView::Raw(v)) => v.len() <= 0x7fff,
        _ => true,
    }
}

/// The extra part of a stack can be written: its payload fits a 32-bit length.
pub open spec fn extra_fits(s: ItemStackView) -> bool {
    match s.nbt {
        Some(NbtView::Extra(Some(g))) => g.len() <= 0x7fff_ffff,
        _ => true,
    }
}

/// A stack that reads back as it was written: it fits, an inline nbt is not
/// empty, and an out-of-band nbt holds its payload.
pub open spec fn item_canonical(s: ItemStackView) -> bool {
    header_fits(s) && extra_fits(s) && match s.nbt {
        Some(NbtView::Raw(v)) => v.len() > 0,
        Some(NbtView::Extra(g)) => g is Some,
        None => true,
    }
}

/// What a header alone tells of a stack: its out-of-band payload is still to come.
pub open spec fn header_only(s: ItemStackView) -> ItemStackView {
    ItemStackView {
        nbt: match s.nbt {
            Some(NbtView::Extra(_)) => Some(NbtView::Extra(None)),
            n => n,
        },
        ..s
    }
}

/// How many raw nbt bytes follow a header's nbt length field `k`.
pub open spec fn raw_len(k: i16) -> nat {
    if k > 0 {
        k as nat
    } else {
        0
    }
}

/// The nbt that a header's length field `k` and the raw bytes after it stand
/// for: inline bytes for a positive length, a payload out of band for -1,
/// none for any other value.
pub open spec fn nbt_of_field(k: i16, raw: Seq<u8>) -> Option<NbtView> {
    if k > 0 {
        Some(NbtView::Raw(raw))
    } else if k == -1 {
        Some(NbtView::Extra(None))
    } else {
        None
    }
}

/// A header as it stands in a stream: id, damage, count, the nbt length
/// field `k`, and the raw bytes after it.
pub open spec fn header_frame(id: Seq<char>, damage: i32, count: i32, k: i16, raw: Seq<u8>) -> Seq<
    u8,
> {
    enc_string(id) + enc_i32(damage) + enc_i32(count) + enc_i16(k) + raw
}

/// A header that reads back as written.
pub open spec fn header_readable(s: ItemStackView) -> bool {
    header_fits(s) && match s.nbt {
        Some(NbtView::Raw(v)) => v.len() > 0,
        _ => true,
    }
}

impl ItemStack {
    /// Reads a stack header; an out-of-band payload is left for `read_extra`.
    pub fn read(r: &mut ByteReader) -> (res: Result<ItemStack, WireError>)
        requires
            old(r).wf(),
        ensures
            final(r).wf(),
            final(r).buf@ == old(r).buf@,
            res matches Ok(t) ==> exists|k: i16, raw: Seq<u8>|
                raw.len() == raw_len(k) && t@.nbt == nbt_of_field(k, raw) && #[trigger] has_prefix(
                    old(r).buf@,
                    old(r).pos as int,
                    header_frame(t.id@, t.damage, t.count, k, raw),
                ) && final(r).pos == old(r).pos + header_frame(t.id@, t.damage, t.count, k, raw).len(),
            forall|id: Seq<char>, damage: i32, count: i32, k: i16, raw: Seq<u8>|
                string_fits(id) && raw.len() == raw_len(k) && #[trigger] has_prefix(
                    old(r).buf@,
                    old(r).pos as int,
                    header_frame(id, damage, count, k, raw),
                ) ==> (res matches Ok(t) && t@ == (ItemStackView {
                    id,
                    damage,
                    count,
                    nbt: nbt_of_field(k, raw),
                }) && final(r).pos == old(r).pos + header_frame(id, damage, count, k, raw).len()),
            forall|x: ItemStackView|
                header_readable(x) && #[trigger] has_prefix(
                    old(r).buf@,
                    old(r).pos as int,
                    item_header(x),
                ) ==> (res matches Ok(t) && t@ == header_only(x) && final(r).pos == old(r).pos
                    + item_header(x).len()),
    {
        let ghost data = r.buf@;
        let ghost at0 = r.pos as int;
        proof {
            assert forall|x: ItemStackView| #[trigger] item_header(x) == enc_string(x.id) + (
            enc_i32(x.damage) + (enc_i32(x.count) + nbt_field(x.nbt))) by {
                assert(item_header(x) =~= enc_string(x.id) + (enc_i32(x.damage) + (enc_i32(
                    x.count,
                ) + nbt_field(x.nbt))));
            }
            assert forall|x: ItemStackView| #[trigger]
                has_prefix(data, at0, item_header(x)) implies {
                let at1 = at0 + enc_string(x.id).len();
                let at2 = at1 + 4;
                let at3 = at2 + 4;
                &&& has_prefix(data, at0, enc_string(x.id))
                &&& has_prefix(data, at1, enc_i32(x.damage))
                &&& has_prefix(data, at2, enc_i32(x.count))
                &&& has_prefix(data, at3, nbt_field(x.nbt))
            } by {
                let at1 = at0 + enc_string(x.id).len();
                lemma_prefix_split(
                    data,
                    at0,
                    enc_string(x.id),
                    enc_i32(x.damage) + (enc_i32(x.count) + nbt_field(x.nbt)),
                );
                lemma_prefix_split(
                    data,
                    at1,
                    enc_i32(x.damage),
                    enc_i32(x.count) + nbt_field(x.nbt),
                );
                lemma_prefix_split(data, at1 + 4, enc_i32(x.count), nbt_field(x.nbt));
            }
        }
        proof {
            assert forall|id: Seq<char>, damage: i32, count: i32, k: i16, raw: Seq<u8>|
                #[trigger] has_prefix(data, at0, header_frame(id, damage, count, k, raw)) implies {
                let at1 = at0 + enc_string(id).len();
                &&& has_prefix(data, at0, enc_string(id))
                &&& has_prefix(data, at1, enc_i32(damage))
                &&& has_prefix(data, at1 + 4, enc_i32(count))
                &&& has_prefix(data, at1 + 8, enc_i16(k))
                &&& has_prefix(data, at1 + 10, raw)
            } by {
                let a = enc_string(id);
                let b = enc_i32(damage);
                let c = enc_i32(count);
                let d = enc_i16(k);
                lemma_prefix_split(data, at0, a + b + c + d, raw);
                lemma_prefix_split(data, at0, a + b + c, d);
                lemma_prefix_split(data, at0, a + b, c);
                lemma_prefix_split(data, at0, a, b);
            }
        }
        let id = read_string(r)?;
        let damage = r.read_i32()?;
        let count = r.read_i32()?;
        let at3 = r.pos;
        let nbt_size = r.read_i16()?;
        let at4 = r.pos;
        let ghost mut raw: Seq<u8> = Seq::empty();
        let nbt = if nbt_size > 0 {
            let v = r.read_bytes(nbt_size as usize)?;
            proof {
                raw = v@;
            }
            Some(NBT::Raw(v))
        } else if nbt_size == -1 {
            Some(NBT::Extra(None))
        } else {
            None
        };
        let res = ItemStack { damage, count, id, nbt };
        proof {
            let hf = header_frame(res.id@, damage, count, nbt_size, raw);
            let es = enc_string(res.id@);
            lemma_prefix_split(data, at0, es, enc_i32(damage));
            lemma_prefix_split(data, at0, es + enc_i32(damage), enc_i32(count));
            lemma_prefix_split(data, at0, es + enc_i32(damage) + enc_i32(count), enc_i16(nbt_size));
            if nbt_size <= 0 {
                assert(raw.len() == 0);
                assert(has_prefix(data, at4 as int, raw));
            }
            lemma_prefix_split(
                data,
                at0,
                es + enc_i32(damage) + enc_i32(count) + enc_i16(nbt_size),
                raw,
            );
            assert(res@.nbt == nbt_of_field(nbt_size, raw));
            assert(has_prefix(data, at0, hf));
            assert forall|id2: Seq<char>, damage2: i32, count2: i32, k: i16, raw2: Seq<u8>|
                string_fits(id2) && raw2.len() == raw_len(k) && #[trigger] has_prefix(
                    data,
                    at0,
                    header_frame(id2, damage2, count2, k, raw2),
                ) implies res@ == (ItemStackView {
                id: id2,
                damage: damage2,
                count: count2,
                nbt: nbt_of_field(k, raw2),
            }) && r.pos == at0 + header_frame(id2, damage2, count2, k, raw2).len() by {
                assert(raw2 =~= raw);
            }
            lemma_prefix_split(data, at0, enc_string(res.id@), enc_i32(damage));
            lemma_prefix_split(
                data,
                at0,
                enc_string(res.id@) + enc_i32(damage),
                enc_i32(count),
            );
            assert forall|x: ItemStackView|
                header_readable(x) && #[trigger] has_prefix(
                    data,
                    at0,
                    item_header(x),
                ) implies res@ == header_only(x) && r.pos == at0 + item_header(x).len() by {
                match x.nbt {
                    Some(NbtView::Raw(v)) => {
                        lemma_prefix_split(data, at3 as int, enc_i16(v.len() as i16), v);
                    },
                    _ => {},
                }
            }
        }
        Ok(res)
    }

    /// Writes a stack header; a raw nbt of more than 32767 bytes or an id of
    /// more than 65535 bytes is refused and nothing is written.
    pub fn write(&self, w: &mut Vec<u8>) -> (r: Result<(), WireError>)
        ensures
            r is Ok <==> header_fits(self@),
            r is Ok ==> final(w)@ == old(w)@ + item_header(self@),
            r matches Err(e) ==> e == WireError::TooLong && final(w)@ == old(w)@,
    {
        match &self.nbt {
            Some(NBT::Raw(v)) => {
                if v.len() > 0x7fff {
                    return Err(WireError::TooLong);
                }
            },
            _ => {},
        }
        write_string(w, self.id.as_str())?;
        write_i32(w, self.damage);
        write_i32(w, self.count);
        match &self.nbt {
            None => write_i16(w, 0),
            Some(NBT::Raw(v)) => {
                write_i16(w, v.len() as i16);
                write_bytes(w, v.as_slice());
            },
            Some(NBT::Extra(_)) => write_i16(w, -1),
        }
        assert(w@ =~= old(w)@ + item_header(self@));
        Ok(())
    }

    /// Writes the out-of-band payload of a stack, if it has one.
    pub fn write_extra(&self, w: &mut Vec<u8>) -> (r: Result<(), WireError>)
        ensures
            r is Ok <==> extra_fits(self@),
            r is Ok ==> final(w)@ == old(w)@ + item_extra(self@),
            r matches Err(e) ==> e == WireError::TooLong && final(w)@ == old(w)@,
    {
        match &self.nbt {
            Some(NBT::Extra(Some(gz))) => {
                let g = gz.as_gzip();
                if g.len() > 0x7fff_ffff {
                    return Err(WireError::TooLong);
                }
                write_i32(w, g.len() as i32);
                write_bytes(w, g);
                Ok(())
            },
            _ => {
                assert(w@ =~= old(w)@ + item_extra(self@));
                Ok(())
            },
        }
    }

    /// Reads the out-of-band payload that the header announced, if it did.
    pub fn read_extra(&mut self, r: &mut ByteReader) -> (res: Result<(), WireError>)
        requires
            old(r).wf(),
        ensures
            final(r).wf(),
            final(r).buf@ == old(r).buf@,
            !(old(self).nbt matches Some(NBT::Extra(_))) ==> res is Ok && *final(self) == *old(
                self,
            ) && final(r).pos == old(r).pos,
            old(self).nbt matches Some(NBT::Extra(_)) && res is Ok ==> (final(self)@.nbt matches Some(
                NbtView::Extra(Some(g)),
            ) && g.len() <= 0x7fff_ffff && has_prefix(
                old(r).buf@,
                old(r).pos as int,
                enc_i32(g.len() as i32) + g,
            ) && final(self)@ == (ItemStackView {
                nbt: Some(NbtView::Extra(Some(g))),
                ..old(self)@
            }) && final(r).pos == old(r).pos + 4 + g.len()),
            forall|g: Seq<u8>|
                old(self).nbt matches Some(NBT::Extra(_)) && g.len() <= 0x7fff_ffff
                    && #[trigger] has_prefix(
                    old(r).buf@,
                    old(r).pos as int,
                    enc_i32(g.len() as i32) + g,
                ) ==> (res is Ok && final(self)@ == (ItemStackView {
                    nbt: Some(NbtView::Extra(Some(g))),
                    ..old(self)@
                }) && final(r).pos == old(r).pos + 4 + g.len()),
    {
        let is_extra = match &self.nbt {
            Some(NBT::Extra(_)) => true,
            _ => false,
        };
        if !is_extra {
            return Ok(());
        }
        let ghost data = r.buf@;
        let ghost at0 = r.pos as int;
        let len = match r.read_i32() {
            Ok(n) => n,
            Err(e) => {
                proof {
                    assert forall|g: Seq<u8>|
                        g.len() <= 0x7fff_ffff && #[trigger] has_prefix(
                            data,
                            at0,
                            enc_i32(g.len() as i32) + g,
                        ) implies false by {
                        lemma_prefix_split(data, at0, enc_i32(g.len() as i32), g);
                    }
                }
                return Err(e);
            },
        };
        if len < 0 {
            proof {
                assert forall|g: Seq<u8>|
                    g.len() <= 0x7fff_ffff && #[trigger] has_prefix(
                        data,
                        at0,
                        enc_i32(g.len() as i32) + g,
                    ) implies false by {
                    lemma_prefix_split(data, at0, enc_i32(g.len() as i32), g);
                }
            }
            return Err(WireError::NegativeLength);
        }
        let bytes = match r.read_bytes(len as usize) {
            Ok(b) => b,
            Err(e) => {
                proof {
                    assert forall|g: Seq<u8>|
                        g.len() <= 0x7fff_ffff && #[trigger] has_prefix(
                            data,
                            at0,
                            enc_i32(g.len() as i32) + g,
                        ) implies false by {
                        lemma_prefix_split(data, at0, enc_i32(g.len() as i32), g);
                    }
                }
                return Err(e);
            },
        };
        proof {
            lemma_prefix_split(data, at0, enc_i32(len), bytes@);
            assert forall|g: Seq<u8>|
                g.len() <= 0x7fff_ffff && #[trigger] has_prefix(
                    data,
                    at0,
                    enc_i32(g.len() as i32) + g,
                ) implies g == bytes@ by {
                lemma_prefix_split(data, at0, enc_i32(g.len() as i32), g);
            }
        }
        self.nbt = Some(NBT::Extra(Some(GzipNBT::from_gzip(bytes))));
        Ok(())
    }
}

/// How many stacks `take_items` hands out from a buffer of `len` stacks.
pub open spec fn take_count(len: nat, max_stacks: i32) -> nat {
    if max_stacks <= 0 {
        0
    } else if (max_stacks as nat) < len {
        max_stacks as nat
    } else {
        len
    }
}

/// How many of `offered` stacks a buffer that holds `held` stacks accepts.
pub open spec fn accept_count(held: nat, offered: nat) -> nat {
    let room: nat = if held >= ITEM_BUFFER_LIMIT {
        0
    } else {
        (ITEM_BUFFER_LIMIT - held) as nat
    };
    if offered < room {
        offered
    } else {
        room
    }
}

/// The item buffer of one frequency: stacks in arrival order, taken from the head.
#[derive(Debug)]
pub struct Items {
    data: Vec<ItemStack>,
}

impl View for Items {
    type V = Seq<ItemStack>;

    closed spec fn view(&self) -> Seq<ItemStack> {
        self.data@
    }
}

impl Items {
    pub fn new() -> (r: Items)
        ensures
            r@ == Seq::<ItemStack>::empty(),
    {
        Items { data: Vec::new() }
    }

    /// A buffer that holds `stacks` as they are, whatever their number.
    pub fn from_stacks(stacks: Vec<ItemStack>) -> (r: Items)
        ensures
            r@ == stacks@,
    {
        Items { data: stacks }
    }

    /// The stacks held, head first.
    pub fn as_slice(&self) -> (r: &[ItemStack])
        ensures
            r@ == self@,
    {
        self.data.as_slice()
    }

    /// Gives up the stacks held, head first.
    pub fn into_stacks(self) -> (r: Vec<ItemStack>)
        ensures
            r@ == self@,
    {
        self.data
    }

    pub fn len(&self) -> (r: usize)
        ensures
            r == self@.len(),
    {
        self.data.len()
    }

    /// Removes and returns up to `max_stacks` stacks from the head, in stored order.
    pub fn take_items(&mut self, max_stacks: i32) -> (r: Vec<ItemStack>)
        ensures
            r@ == old(self)@.take(take_count(old(self)@.len(), max_stacks) as int),
            final(self)@ == old(self)@.skip(take_count(old(self)@.len(), max_stacks) as int),
            max_stacks <= 0 ==> r@.len() == 0 && final(self)@ == old(self)@,
    {
        let k: usize = if max_stacks <= 0 {
            0
        } else if (max_stacks as usize) < self.data.len() {
            max_stacks as usize
        } else {
            self.data.len()
        };
        let mut taken = self.data.split_off(k);
        std::mem::swap(&mut self.data, &mut taken);
        proof {
            assert(old(self)@.skip(0) =~= old(self)@);
        }
        taken
    }

    /// Appends to the tail as many of `stacks` as fit under the limit, in
    /// their order; the rest stay in `stacks`.
    pub fn insert_items(&mut self, stacks: &mut Vec<ItemStack>)
        ensures
            final(self)@ == old(self)@ + old(stacks)@.take(
                accept_count(old(self)@.len(), old(stacks)@.len()) as int,
            ),
            final(stacks)@ == old(stacks)@.skip(
                accept_count(old(self)@.len(), old(stacks)@.len()) as int,
            ),
            old(self)@.len() <= ITEM_BUFFER_LIMIT ==> final(self)@.len() <= ITEM_BUFFER_LIMIT,
    {
        let room = ITEM_BUFFER_LIMIT.saturating_sub(self.data.len());
        let k = if stacks.len() < room {
            stacks.len()
        } else {
            room
        };
        let mut accepted = stacks.split_off(k);
        std::mem::swap(stacks, &mut accepted);
        self.data.append(&mut accepted);
    }
}

} // verus!
