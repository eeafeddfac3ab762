//! The snapshot codec: the registry's buffers as a versioned byte stream,
//! gzip-framed, and merged into a live registry on load.
use vstd::prelude::*;
use crate::fluid::{
    fluid_bytes, fluid_canonical, fluid_fits, fluid_stacks_view, inserted, inserted_all, FluidStack,
    FluidStackView, Fluids,
};
use crate::gzip::{gunzip_of, gzip_compress, gzip_decompress, gzip_of};
use crate::item::{
    extra_fits, header_fits, header_only, NbtView, NBT, header_readable, item_canonical, item_extra, item_header, ItemStack, ItemStackView,
    Items,
};
use crate::registry::{energy_of, fluids_of, get_or, items_of, Registry};
use crate::table::{entry_map, has_key, key_index, keys_unique, lemma_push};
use crate::sat_add;
use crate::table::Frequency;
use crate::wire::{
    read_string,
    enc_i32, enc_i64, enc_string, has_prefix, lemma_prefix_split, string_fits, write_i32,
    write_i64, write_string, ByteReader, WireError,
};

verus! {

/// The format version that `save` writes.
pub const SAVE_DATA_FORMAT: i64 = 3;

/// Why a snapshot could not be written or read.
#[derive(Clone, Copy, Debug, PartialEq, Eq, Structural)]
pub enum SnapshotError {
    /// A frame could not be written or read.
    Wire(WireError),
    /// The stream names a format version other than 2 or 3.
    BadVersion,
    /// The stream is not gzip.
    Gzip,
}

/// The parts of `s`, each turned into bytes by `f`, one after another.
pub open spec fn concat_map<T>(s: Seq<T>, f: spec_fn(T) -> Seq<u8>) -> Seq<u8>
    decreases s.len(),
{
    if s.len() == 0 {
        Seq::empty()
    } else {
        concat_map(s.drop_last(), f) + f(s.last())
    }
}

pub proof fn lemma_concat_map_step<T>(s: Seq<T>, f: spec_fn(T) -> Seq<u8>, i: int)
    requires
        0 <= i < s.len(),
    ensures
        concat_map(s.take(i + 1), f) == concat_map(s.take(i), f) + f(s[i]),
{
    assert(s.take(i + 1).drop_last() =~= s.take(i));
}

proof fn lemma_concat_map_split<T>(s: Seq<T>, f: spec_fn(T) -> Seq<u8>, i: int)
    requires
        0 <= i <= s.len(),
    ensures
        concat_map(s, f) == concat_map(s.take(i), f) + concat_map(s.skip(i), f),
    decreases s.len(),
{
    if i == s.len() {
        assert(s.take(i) =~= s);
        assert(s.skip(i).len() == 0);
        assert(concat_map(s, f) + Seq::empty() =~= concat_map(s, f));
    } else {
        let d = s.drop_last();
        lemma_concat_map_split(d, f, i);
        assert(d.take(i) =~= s.take(i));
        assert(s.skip(i).drop_last() =~= d.skip(i));
        assert(s.skip(i).last() == s.last());
        assert(concat_map(s, f) =~= concat_map(s.take(i), f) + concat_map(s.skip(i), f));
    }
}

/// The `i`-th part of a concatenation stands after the parts before it.
proof fn lemma_concat_map_next<T>(data: Seq<u8>, at0: int, s: Seq<T>, f: spec_fn(T) -> Seq<u8>, i: int)
    requires
        0 <= i < s.len(),
        has_prefix(data, at0, concat_map(s, f)),
    ensures
        has_prefix(data, at0 + concat_map(s.take(i), f).len(), f(s[i])),
        concat_map(s.take(i + 1), f) == concat_map(s.take(i), f) + f(s[i]),
{
    lemma_concat_map_split(s, f, i + 1);
    lemma_concat_map_step(s, f, i);
    lemma_prefix_split(data, at0, concat_map(s.take(i + 1), f), concat_map(s.skip(i + 1), f));
    lemma_prefix_split(data, at0, concat_map(s.take(i), f), f(s[i]));
}

pub type FluidSection = (Seq<char>, Seq<FluidStackView>);

pub type ItemSection = (Seq<char>, Seq<ItemStackView>);

pub type EnergySection = (Seq<char>, i64);

/// What a snapshot holds: the fluid, item and energy sections, in stream order.
pub struct SnapshotView {
    pub fluids: Seq<FluidSection>,
    pub items: Seq<ItemSection>,
    pub energy: Seq<EnergySection>,
}

pub open spec fn fluid_list_bytes(s: Seq<FluidStackView>) -> Seq<u8> {
    concat_map(s, |x: FluidStackView| fluid_bytes(x))
}

pub open spec fn item_headers_bytes(s: Seq<ItemStackView>) -> Seq<u8> {
    concat_map(s, |x: ItemStackView| item_header(x))
}

pub open spec fn item_extras_bytes(s: Seq<ItemStackView>) -> Seq<u8> {
    concat_map(s, |x: ItemStackView| item_extra(x))
}

pub open spec fn fluid_sections_bytes(m: Seq<FluidSection>) -> Seq<u8> {
    concat_map(m, |e: FluidSection| fluid_section_bytes(e))
}

pub open spec fn fluid_section_bytes(e: FluidSection) -> Seq<u8> {
    enc_string(e.0) + enc_i32(e.1.len() as i32) + fluid_list_bytes(e.1)
}

pub open spec fn item_sections_bytes(m: Seq<ItemSection>) -> Seq<u8> {
    concat_map(m, |e: ItemSection| item_section_bytes(e))
}

pub open spec fn item_section_bytes(e: ItemSection) -> Seq<u8> {
    enc_string(e.0) + enc_i32(e.1.len() as i32) + item_headers_bytes(e.1) + item_extras_bytes(e.1)
}

pub open spec fn energy_sections_bytes(m: Seq<EnergySection>) -> Seq<u8> {
    concat_map(m, |e: EnergySection| energy_section_bytes(e))
}

pub open spec fn energy_section_bytes(e: EnergySection) -> Seq<u8> {
    enc_string(e.0) + enc_i64(e.1)
}

/// The uncompressed snapshot stream of format `version`.
pub open spec fn snapshot_bytes(version: i64, m: SnapshotView) -> Seq<u8> {
    enc_i64(version) + enc_i32(m.fluids.len() as i32) + fluid_sections_bytes(m.fluids) + enc_i32(
        m.items.len() as i32,
    ) + item_sections_bytes(m.items) + enc_i32(m.energy.len() as i32) + energy_sections_bytes(
        m.energy,
    )
}

pub open spec fn count_fits(n: nat) -> bool {
    n <= i32::MAX
}

pub open spec fn fluid_section_fits(e: FluidSection) -> bool {
    string_fits(e.0) && count_fits(e.1.len()) && forall|i: int|
        0 <= i < e.1.len() ==> fluid_fits(#[trigger] e.1[i])
}

pub open spec fn item_section_fits(e: ItemSection) -> bool {
    string_fits(e.0) && count_fits(e.1.len()) && forall|i: int|
        0 <= i < e.1.len() ==> header_fits(#[trigger] e.1[i]) && extra_fits(e.1[i])
}

/// Every length in the snapshot fits the field that carries it.
pub open spec fn snapshot_fits(m: SnapshotView) -> bool {
    &&& count_fits(m.fluids.len())
    &&& count_fits(m.items.len())
    &&& count_fits(m.energy.len())
    &&& forall|i: int| 0 <= i < m.fluids.len() ==> fluid_section_fits(#[trigger] m.fluids[i])
    &&& forall|i: int| 0 <= i < m.items.len() ==> item_section_fits(#[trigger] m.items[i])
    &&& forall|i: int| 0 <= i < m.energy.len() ==> string_fits((#[trigger] m.energy[i]).0)
}

/// A snapshot that reads back as it was written.
pub open spec fn snapshot_canonical(m: SnapshotView) -> bool {
    &&& snapshot_fits(m)
    &&& forall|i: int, j: int|
        0 <= i < m.fluids.len() && 0 <= j < m.fluids[i].1.len() ==> fluid_canonical(
            #[trigger] m.fluids[i].1[j],
        )
    &&& forall|i: int, j: int|
        0 <= i < m.items.len() && 0 <= j < m.items[i].1.len() ==> item_canonical(
            #[trigger] m.items[i].1[j],
        )
}

pub open spec fn stacks_view(s: Seq<ItemStack>) -> Seq<ItemStackView> {
    s.map_values(|x: ItemStack| x@)
}


/// The snapshot of a registry: its buffers in the order it keeps them.
pub open spec fn registry_snapshot(r: Registry) -> SnapshotView {
    SnapshotView {
        fluids: r.fluid_entries().map_values(|e: (Frequency, Fluids)| (e.0.0@, e.1@)),
        items: r.item_entries().map_values(|e: (Frequency, Items)| (e.0.0@, stacks_view(e.1@))),
        energy: r.energy_entries().map_values(|e: (Frequency, i64)| (e.0.0@, e.1)),
    }
}

fn write_count(w: &mut Vec<u8>, n: usize) -> (r: Result<(), SnapshotError>)
    ensures
        r is Ok <==> count_fits(n as nat),
        r is Ok ==> final(w)@ == old(w)@ + enc_i32(n as i32),
        r is Err ==> final(w)@ == old(w)@,
{
    if n > 0x7fff_ffff {
        return Err(SnapshotError::Wire(WireError::TooLong));
    }
    write_i32(w, n as i32);
    Ok(())
}

fn write_key(w: &mut Vec<u8>, f: &Frequency) -> (r: Result<(), SnapshotError>)
    ensures
        r is Ok <==> string_fits(f.0@),
        r is Ok ==> final(w)@ == old(w)@ + enc_string(f.0@),
{
    match write_string(w, f.0.as_str()) {
        Ok(()) => Ok(()),
        Err(e) => Err(SnapshotError::Wire(e)),
    }
}

fn write_fluid_sections(w: &mut Vec<u8>, entries: &[(Frequency, Fluids)]) -> (r: Result<(), SnapshotError>)
    ensures
        ({
            let m = entries@.map_values(|e: (Frequency, Fluids)| (e.0.0@, e.1@));
            &&& r is Ok <==> forall|i: int| 0 <= i < m.len() ==> fluid_section_fits(#[trigger] m[i])
            &&& r is Ok ==> final(w)@ == old(w)@ + concat_map(m, |e: FluidSection| fluid_section_bytes(e))
        }),
{
    let ghost m = entries@.map_values(|e: (Frequency, Fluids)| (e.0.0@, e.1@));
    let ghost fsec = |e: FluidSection| fluid_section_bytes(e);
    let mut i: usize = 0;
    while i < entries.len()
        invariant
            i <= entries@.len(),
            m == entries@.map_values(|e: (Frequency, Fluids)| (e.0.0@, e.1@)),
            fsec == (|e: FluidSection| fluid_section_bytes(e)),
            forall|k: int| 0 <= k < i ==> fluid_section_fits(#[trigger] m[k]),
            w@ == old(w)@ + concat_map(m.take(i as int), fsec),
        decreases entries@.len() - i,
    {
        let ghost w0 = w@;
        let (f, fluids) = &entries[i];
        let stacks = fluids.as_slice();
        let ghost sv = fluid_stacks_view(stacks@);
        assert(m[i as int] == (f.0@, sv));
        let rk = write_key(w, f);
        if rk.is_err() {
            assert(!fluid_section_fits(m[i as int]));
            return rk;
        }
        let rc = write_count(w, stacks.len());
        if rc.is_err() {
            assert(!fluid_section_fits(m[i as int]));
            return rc;
        }
        let ghost w1 = w@;
        let mut j: usize = 0;
        while j < stacks.len()
            invariant
                j <= stacks@.len(),
                i < entries@.len(),
                m == entries@.map_values(|e: (Frequency, Fluids)| (e.0.0@, e.1@)),
                fsec == (|e: FluidSection| fluid_section_bytes(e)),
                forall|k: int| 0 <= k < i ==> fluid_section_fits(#[trigger] m[k]),
                w0 == old(w)@ + concat_map(m.take(i as int), fsec),
                m[i as int] == (f.0@, sv),
                string_fits(f.0@),
                count_fits(stacks@.len()),
                w1 == w0 + enc_string(f.0@) + enc_i32(stacks@.len() as i32),
                sv == fluid_stacks_view(stacks@),
                forall|k: int| 0 <= k < j ==> fluid_fits(#[trigger] sv[k]),
                w@ == w1 + fluid_list_bytes(sv.take(j as int)),
            decreases stacks@.len() - j,
        {
            let ghost wj = w@;
            let res = stacks[j].write(w);
            if res.is_err() {
                assert(!fluid_fits(sv[j as int]));
                assert(!fluid_section_fits(m[i as int]));
                return Err(SnapshotError::Wire(WireError::TooLong));
            }
            proof {
                lemma_concat_map_step(sv, |x: FluidStackView| fluid_bytes(x), j as int);
                assert(w@ =~= w1 + fluid_list_bytes(sv.take(j + 1)));
            }
            j = j + 1;
        }
        proof {
            assert(sv.take(j as int) =~= sv);
            lemma_concat_map_step(m, fsec, i as int);
            assert(w@ =~= w0 + fluid_section_bytes(m[i as int]));
        }
        i = i + 1;
    }
    proof {
        assert(m.take(i as int) =~= m);
    }
    Ok(())
}

fn write_item_sections(w: &mut Vec<u8>, entries: &[(Frequency, Items)]) -> (r: Result<(), SnapshotError>)
    ensures
        ({
            let m = entries@.map_values(|e: (Frequency, Items)| (e.0.0@, stacks_view(e.1@)));
            &&& r is Ok <==> forall|i: int| 0 <= i < m.len() ==> item_section_fits(#[trigger] m[i])
            &&& r is Ok ==> final(w)@ == old(w)@ + concat_map(m, |e: ItemSection| item_section_bytes(e))
        }),
{
    let ghost m = entries@.map_values(|e: (Frequency, Items)| (e.0.0@, stacks_view(e.1@)));
    let ghost isec = |e: ItemSection| item_section_bytes(e);
    let mut i: usize = 0;
    while i < entries.len()
        invariant
            i <= entries@.len(),
            m == entries@.map_values(|e: (Frequency, Items)| (e.0.0@, stacks_view(e.1@))),
            isec == (|e: ItemSection| item_section_bytes(e)),
            forall|k: int| 0 <= k < i ==> item_section_fits(#[trigger] m[k]),
            w@ == old(w)@ + concat_map(m.take(i as int), isec),
        decreases entries@.len() - i,
    {
        let ghost w0 = w@;
        let (f, items) = &entries[i];
        let stacks = items.as_slice();
        let ghost sv = stacks_view(stacks@);
        assert(m[i as int] == (f.0@, sv));
        let rk = write_key(w, f);
        if rk.is_err() {
            assert(!item_section_fits(m[i as int]));
            return rk;
        }
        let rc = write_count(w, stacks.len());
        if rc.is_err() {
            assert(!item_section_fits(m[i as int]));
            return rc;
        }
        let ghost w1 = w@;
        let mut j: usize = 0;
        while j < stacks.len()
            invariant
                j <= stacks@.len(),
                i < entries@.len(),
                m == entries@.map_values(|e: (Frequency, Items)| (e.0.0@, stacks_view(e.1@))),
                m[i as int] == (f.0@, sv),
                sv == stacks_view(stacks@),
                forall|k: int| 0 <= k < j ==> header_fits(#[trigger] sv[k]),
                w@ == w1 + item_headers_bytes(sv.take(j as int)),
            decreases stacks@.len() - j,
        {
            let res = stacks[j].write(w);
            if res.is_err() {
                assert(!header_fits(sv[j as int]));
                assert(!item_section_fits(m[i as int]));
                return Err(SnapshotError::Wire(WireError::TooLong));
            }
            proof {
                lemma_concat_map_step(sv, |x: ItemStackView| item_header(x), j as int);
                assert(w@ =~= w1 + item_headers_bytes(sv.take(j + 1)));
            }
            j = j + 1;
        }
        assert(sv.take(j as int) =~= sv);
        let ghost w2 = w@;
        let mut j: usize = 0;
        while j < stacks.len()
            invariant
                j <= stacks@.len(),
                i < entries@.len(),
                m == entries@.map_values(|e: (Frequency, Items)| (e.0.0@, stacks_view(e.1@))),
                m[i as int] == (f.0@, sv),
                sv == stacks_view(stacks@),
                forall|k: int| 0 <= k < stacks@.len() ==> header_fits(#[trigger] sv[k]),
                forall|k: int| 0 <= k < j ==> extra_fits(#[trigger] sv[k]),
                w@ == w2 + item_extras_bytes(sv.take(j as int)),
            decreases stacks@.len() - j,
        {
            let res = stacks[j].write_extra(w);
            if res.is_err() {
                assert(!extra_fits(sv[j as int]));
                assert(!item_section_fits(m[i as int]));
                return Err(SnapshotError::Wire(WireError::TooLong));
            }
            proof {
                lemma_concat_map_step(sv, |x: ItemStackView| item_extra(x), j as int);
                assert(w@ =~= w2 + item_extras_bytes(sv.take(j + 1)));
            }
            j = j + 1;
        }
        proof {
            assert(sv.take(j as int) =~= sv);
            assert(item_section_fits(m[i as int]));
            lemma_concat_map_step(m, isec, i as int);
            assert(w@ =~= w0 + item_section_bytes(m[i as int]));
        }
        i = i + 1;
    }
    proof {
        assert(m.take(i as int) =~= m);
    }
    Ok(())
}

fn write_energy_sections(w: &mut Vec<u8>, entries: &[(Frequency, i64)]) -> (r: Result<(), SnapshotError>)
    ensures
        ({
            let m = entries@.map_values(|e: (Frequency, i64)| (e.0.0@, e.1));
            &&& r is Ok <==> forall|i: int| 0 <= i < m.len() ==> string_fits((#[trigger] m[i]).0)
            &&& r is Ok ==> final(w)@ == old(w)@ + concat_map(m, |e: EnergySection| energy_section_bytes(e))
        }),
{
    let ghost m = entries@.map_values(|e: (Frequency, i64)| (e.0.0@, e.1));
    let ghost esec = |e: EnergySection| energy_section_bytes(e);
    let mut i: usize = 0;
    while i < entries.len()
        invariant
            i <= entries@.len(),
            m == entries@.map_values(|e: (Frequency, i64)| (e.0.0@, e.1)),
            esec == (|e: EnergySection| energy_section_bytes(e)),
            forall|k: int| 0 <= k < i ==> string_fits((#[trigger] m[k]).0),
            w@ == old(w)@ + concat_map(m.take(i as int), esec),
        decreases entries@.len() - i,
    {
        let ghost w0 = w@;
        let (f, v) = &entries[i];
        assert(m[i as int] == (f.0@, *v));
        let rk = write_key(w, f);
        if rk.is_err() {
            return rk;
        }
        write_i64(w, *v);
        proof {
            lemma_concat_map_step(m, esec, i as int);
            assert(w@ =~= w0 + energy_section_bytes(m[i as int]));
        }
        i = i + 1;
    }
    proof {
        assert(m.take(i as int) =~= m);
    }
    Ok(())
}

impl Registry {
    /// The uncompressed snapshot stream of the registry, in the current format.
    pub fn save_body(&self) -> (r: Result<Vec<u8>, SnapshotError>)
        ensures
            r is Ok <==> snapshot_fits(registry_snapshot(*self)),
            r matches Ok(b) ==> b@ == snapshot_bytes(SAVE_DATA_FORMAT, registry_snapshot(*self)),
    {
        let ghost m = registry_snapshot(*self);
        let mut w: Vec<u8> = Vec::new();
        write_i64(&mut w, SAVE_DATA_FORMAT);
        let fl = self.fluid_buffers();
        write_count(&mut w, fl.len())?;
        write_fluid_sections(&mut w, fl)?;
        let it = self.item_buffers();
        write_count(&mut w, it.len())?;
        write_item_sections(&mut w, it)?;
        let en = self.energy_buffers();
        write_count(&mut w, en.len())?;
        write_energy_sections(&mut w, en)?;
        assert(w@ =~= snapshot_bytes(SAVE_DATA_FORMAT, m));
        Ok(w)
    }
}

/// A snapshot as read from a stream: its sections in stream order.
pub struct Snapshot {
    pub fluids: Vec<(Frequency, Vec<FluidStack>)>,
    pub items: Vec<(Frequency, Vec<ItemStack>)>,
    pub energy: Vec<(Frequency, i64)>,
}

pub open spec fn fluid_sections_view(v: Seq<(Frequency, Vec<FluidStack>)>) -> Seq<FluidSection> {
    v.map_values(|e: (Frequency, Vec<FluidStack>)| (e.0.0@, fluid_stacks_view(e.1@)))
}

pub open spec fn item_sections_view(v: Seq<(Frequency, Vec<ItemStack>)>) -> Seq<ItemSection> {
    v.map_values(|e: (Frequency, Vec<ItemStack>)| (e.0.0@, stacks_view(e.1@)))
}

pub open spec fn energy_sections_view(v: Seq<(Frequency, i64)>) -> Seq<EnergySection> {
    v.map_values(|e: (Frequency, i64)| (e.0.0@, e.1))
}

impl View for Snapshot {
    type V = SnapshotView;

    open spec fn view(&self) -> SnapshotView {
        SnapshotView {
            fluids: fluid_sections_view(self.fluids@),
            items: item_sections_view(self.items@),
            energy: energy_sections_view(self.energy@),
        }
    }
}

fn wire_err<T>(r: Result<T, WireError>) -> (o: Result<T, SnapshotError>)
    ensures
        match r {
            Ok(v) => o == Ok::<T, SnapshotError>(v),
            Err(e) => o == Err::<T, SnapshotError>(SnapshotError::Wire(e)),
        },
{
    match r {
        Ok(v) => Ok(v),
        Err(e) => Err(SnapshotError::Wire(e)),
    }
}

pub open spec fn all_fluids_canonical(m: Seq<FluidStackView>) -> bool {
    forall|k: int| 0 <= k < m.len() ==> fluid_canonical(#[trigger] m[k])
}

fn read_fluid_list(r: &mut ByteReader, n: i32) -> (res: Result<Vec<FluidStack>, SnapshotError>)
    requires
        old(r).wf(),
    ensures
        final(r).wf(),
        final(r).buf@ == old(r).buf@,
        forall|m: Seq<FluidStackView>|
            m.len() == n as int && all_fluids_canonical(m) && #[trigger] has_prefix(
                old(r).buf@,
                old(r).pos as int,
                fluid_list_bytes(m),
            ) ==> (res matches Ok(v) && fluid_stacks_view(v@) == m && final(r).pos == old(r).pos
                + fluid_list_bytes(m).len()),
{
    let ghost data = r.buf@;
    let ghost at0 = r.pos as int;
    let ghost f = |x: FluidStackView| fluid_bytes(x);
    let mut out: Vec<FluidStack> = Vec::new();
    let mut i: i32 = 0;
    while i < n
        invariant
            r.wf(),
            r.buf@ == data,
            0 <= i,
            i <= n || n < 0,
            at0 == old(r).pos as int,
            data == old(r).buf@,
            f == (|x: FluidStackView| fluid_bytes(x)),
            forall|m: Seq<FluidStackView>|
                m.len() == n as int && all_fluids_canonical(m) && #[trigger] has_prefix(
                    data,
                    at0,
                    fluid_list_bytes(m),
                ) ==> fluid_stacks_view(out@) == m.take(i as int) && r.pos == at0 + concat_map(
                    m.take(i as int),
                    f,
                ).len(),
        decreases n - i,
    {
        let ghost pos = r.pos as int;
        let ghost before = out@;
        match FluidStack::read(r) {
            Ok(fs) => {
                out.push(fs);
                proof {
                    assert forall|m: Seq<FluidStackView>|
                        m.len() == n as int && all_fluids_canonical(m) && #[trigger] has_prefix(
                            data,
                            at0,
                            fluid_list_bytes(m),
                        ) implies fluid_stacks_view(out@) == m.take(i + 1) && r.pos == at0
                        + concat_map(m.take(i + 1), f).len() by {
                        lemma_concat_map_next(data, at0, m, f, i as int);
                        assert(fluid_canonical(m[i as int]));
                        assert(fluid_stacks_view(out@) =~= m.take(i + 1));
                    }
                }
            },
            Err(e) => {
                proof {
                    assert forall|m: Seq<FluidStackView>|
                        m.len() == n as int && all_fluids_canonical(m) && #[trigger] has_prefix(
                            data,
                            at0,
                            fluid_list_bytes(m),
                        ) implies false by {
                        lemma_concat_map_next(data, at0, m, f, i as int);
                        assert(fluid_canonical(m[i as int]));
                    }
                }
                return Err(SnapshotError::Wire(e));
            },
        }
        i = i + 1;
    }
    proof {
        assert forall|m: Seq<FluidStackView>|
            m.len() == n as int && all_fluids_canonical(m) && #[trigger] has_prefix(
                data,
                at0,
                fluid_list_bytes(m),
            ) implies m.take(i as int) == m by {
            assert(m.take(i as int) =~= m);
        }
    }
    Ok(out)
}

pub open spec fn all_headers_readable(m: Seq<ItemStackView>) -> bool {
    forall|k: int| 0 <= k < m.len() ==> header_readable(#[trigger] m[k])
}

pub open spec fn all_items_canonical(m: Seq<ItemStackView>) -> bool {
    forall|k: int| 0 <= k < m.len() ==> item_canonical(#[trigger] m[k])
}

pub open spec fn headers_of(m: Seq<ItemStackView>) -> Seq<ItemStackView> {
    m.map_values(|x: ItemStackView| header_only(x))
}

/// Reads `n` stack headers.
pub fn read_item_headers(r: &mut ByteReader, n: i32) -> (res: Result<Vec<ItemStack>, WireError>)
    requires
        old(r).wf(),
    ensures
        final(r).wf(),
        final(r).buf@ == old(r).buf@,
        forall|m: Seq<ItemStackView>|
            m.len() == n as int && all_headers_readable(m) && #[trigger] has_prefix(
                old(r).buf@,
                old(r).pos as int,
                item_headers_bytes(m),
            ) ==> (res matches Ok(v) && stacks_view(v@) == headers_of(m) && final(r).pos
                == old(r).pos + item_headers_bytes(m).len()),
{
    let ghost data = r.buf@;
    let ghost at0 = r.pos as int;
    let ghost f = |x: ItemStackView| item_header(x);
    let mut out: Vec<ItemStack> = Vec::new();
    let mut i: i32 = 0;
    while i < n
        invariant
            r.wf(),
            r.buf@ == data,
            0 <= i,
            i <= n || n < 0,
            at0 == old(r).pos as int,
            data == old(r).buf@,
            f == (|x: ItemStackView| item_header(x)),
            forall|m: Seq<ItemStackView>|
                m.len() == n as int && all_headers_readable(m) && #[trigger] has_prefix(
                    data,
                    at0,
                    item_headers_bytes(m),
                ) ==> stacks_view(out@) == headers_of(m).take(i as int) && r.pos == at0
                    + concat_map(m.take(i as int), f).len(),
        decreases n - i,
    {
        match ItemStack::read(r) {
            Ok(st) => {
                out.push(st);
                proof {
                    assert forall|m: Seq<ItemStackView>|
                        m.len() == n as int && all_headers_readable(m) && #[trigger] has_prefix(
                            data,
                            at0,
                            item_headers_bytes(m),
                        ) implies stacks_view(out@) == headers_of(m).take(i + 1) && r.pos == at0
                        + concat_map(m.take(i + 1), f).len() by {
                        lemma_concat_map_next(data, at0, m, f, i as int);
                        assert(header_readable(m[i as int]));
                        assert(stacks_view(out@) =~= headers_of(m).take(i + 1));
                    }
                }
            },
            Err(e) => {
                proof {
                    assert forall|m: Seq<ItemStackView>|
                        m.len() == n as int && all_headers_readable(m) && #[trigger] has_prefix(
                            data,
                            at0,
                            item_headers_bytes(m),
                        ) implies false by {
                        lemma_concat_map_next(data, at0, m, f, i as int);
                        assert(header_readable(m[i as int]));
                    }
                }
                return Err(e);
            },
        }
        i = i + 1;
    }
    proof {
        assert forall|m: Seq<ItemStackView>|
            m.len() == n as int && all_headers_readable(m) && #[trigger] has_prefix(
                data,
                at0,
                item_headers_bytes(m),
            ) implies m.take(i as int) == m && headers_of(m).take(i as int) == headers_of(m) by {
            assert(m.take(i as int) =~= m);
            assert(headers_of(m).take(i as int) =~= headers_of(m));
        }
    }
    Ok(out)
}

/// Reads, in order, the out-of-band payloads that the headers in `stacks` announce.
pub fn read_item_extras(r: &mut ByteReader, stacks: Vec<ItemStack>) -> (res: Result<Vec<ItemStack>, WireError>)
    requires
        old(r).wf(),
    ensures
        final(r).wf(),
        final(r).buf@ == old(r).buf@,
        forall|m: Seq<ItemStackView>|
            stacks_view(stacks@) == headers_of(m) && all_items_canonical(m) && #[trigger] has_prefix(
                old(r).buf@,
                old(r).pos as int,
                item_extras_bytes(m),
            ) ==> (res matches Ok(v) && stacks_view(v@) == m && final(r).pos == old(r).pos
                + item_extras_bytes(m).len()),
{
    let ghost data = r.buf@;
    let ghost at0 = r.pos as int;
    let ghost f = |x: ItemStackView| item_extra(x);
    let ghost orig = stacks@;
    let mut rest = stacks;
    let mut out: Vec<ItemStack> = Vec::new();
    while rest.len() > 0
        invariant
            r.wf(),
            r.buf@ == data,
            at0 == old(r).pos as int,
            data == old(r).buf@,
            f == (|x: ItemStackView| item_extra(x)),
            orig == stacks@,
            out@.len() + rest@.len() == orig.len(),
            rest@ == orig.skip(out@.len() as int),
            forall|m: Seq<ItemStackView>|
                stacks_view(orig) == headers_of(m) && all_items_canonical(m) && #[trigger] has_prefix(
                    data,
                    at0,
                    item_extras_bytes(m),
                ) ==> stacks_view(out@) == m.take(out@.len() as int) && r.pos == at0 + concat_map(
                    m.take(out@.len() as int),
                    f,
                ).len(),
        decreases rest@.len(),
    {
        let ghost i = out@.len() as int;
        let mut st = rest.remove(0);
        proof {
            assert(st == orig[i]);
            assert(rest@ =~= orig.skip(i + 1));
        }
        let ghost hs = st@;
        let ghost st0 = st;
        match st.read_extra(r) {
            Ok(()) => {
                out.push(st);
                proof {
                    assert forall|m: Seq<ItemStackView>|
                        stacks_view(orig) == headers_of(m) && all_items_canonical(m)
                            && #[trigger] has_prefix(
                            data,
                            at0,
                            item_extras_bytes(m),
                        ) implies stacks_view(out@) == m.take(i + 1) && r.pos == at0 + concat_map(
                        m.take(i + 1),
                        f,
                    ).len() by {
                        assert(stacks_view(orig).len() == orig.len() && headers_of(m).len() == m.len());
                        assert(m.len() == orig.len());
                        lemma_concat_map_next(data, at0, m, f, i);
                        assert(item_canonical(m[i]));
                        assert(stacks_view(orig)[i] == headers_of(m)[i]);
                        assert(stacks_view(out@) =~= m.take(i + 1));
                    }
                }
            },
            Err(e) => {
                proof {
                    assert forall|m: Seq<ItemStackView>|
                        stacks_view(orig) == headers_of(m) && all_items_canonical(m)
                            && #[trigger] has_prefix(
                            data,
                            at0,
                            item_extras_bytes(m),
                        ) implies false by {
                        assert(stacks_view(orig).len() == orig.len() && headers_of(m).len() == m.len());
                        assert(m.len() == orig.len());
                        lemma_concat_map_next(data, at0, m, f, i);
                        assert(item_canonical(m[i]));
                        assert(stacks_view(orig)[i] == headers_of(m)[i]);
                        assert(hs == header_only(m[i]));
                        match m[i].nbt {
                            Some(NbtView::Extra(Some(g))) => {
                                assert(item_extra(m[i]) == enc_i32(g.len() as i32) + g);
                                assert(st0@.nbt == Some(NbtView::Extra(None)));
                                match st0.nbt {
                                    Some(NBT::Extra(_)) => {},
                                    Some(NBT::Raw(_)) => {},
                                    None => {},
                                }
                                assert(st0.nbt matches Some(NBT::Extra(_)));
                            },
                            _ => {
                                match st0.nbt {
                                    Some(NBT::Extra(_)) => {
                                        assert(st0@.nbt matches Some(NbtView::Extra(_)));
                                    },
                                    _ => {},
                                }
                            },
                        }
                    }
                }
                return Err(e);
            },
        }
    }
    proof {
        assert forall|m: Seq<ItemStackView>|
            stacks_view(orig) == headers_of(m) && all_items_canonical(m) && #[trigger] has_prefix(
                data,
                at0,
                item_extras_bytes(m),
            ) implies stacks_view(out@) == m && r.pos == at0 + item_extras_bytes(m).len() by {
            assert(stacks_view(orig).len() == orig.len() && headers_of(m).len() == m.len());
            assert(m.len() == orig.len());
            assert(m.take(out@.len() as int) =~= m);
        }
    }
    Ok(out)
}

proof fn lemma_prefix3(data: Seq<u8>, p: int, a: Seq<u8>, b: Seq<u8>, c: Seq<u8>)
    requires
        has_prefix(data, p, a + b + c),
    ensures
        has_prefix(data, p, a),
        has_prefix(data, p + a.len(), b),
        has_prefix(data, p + a.len() + b.len(), c),
{
    lemma_prefix_split(data, p, a + b, c);
    lemma_prefix_split(data, p, a, b);
}

pub open spec fn fluid_section_ok(e: FluidSection) -> bool {
    fluid_section_fits(e) && all_fluids_canonical(e.1)
}

pub open spec fn item_section_ok(e: ItemSection) -> bool {
    item_section_fits(e) && all_items_canonical(e.1)
}

fn read_key(r: &mut ByteReader) -> (res: Result<Frequency, SnapshotError>)
    requires
        old(r).wf(),
    ensures
        final(r).wf(),
        final(r).buf@ == old(r).buf@,
        forall|k: Seq<char>|
            string_fits(k) && #[trigger] has_prefix(old(r).buf@, old(r).pos as int, enc_string(k))
                ==> (res matches Ok(f) && f.0@ == k && final(r).pos == old(r).pos + enc_string(
                k,
            ).len()),
{
    match read_string(r) {
        Ok(s) => Ok(Frequency(s)),
        Err(e) => Err(SnapshotError::Wire(e)),
    }
}

fn read_count(r: &mut ByteReader) -> (res: Result<i32, SnapshotError>)
    requires
        old(r).wf(),
    ensures
        final(r).wf(),
        final(r).buf@ == old(r).buf@,
        forall|n: nat|
            count_fits(n) && #[trigger] has_prefix(old(r).buf@, old(r).pos as int, enc_i32(n as i32))
                ==> (res == Ok::<i32, SnapshotError>(n as i32) && final(r).pos == old(r).pos + 4),
{
    let res = match r.read_i32() {
        Ok(v) => Ok(v),
        Err(e) => Err(SnapshotError::Wire(e)),
    };
    proof {
        assert forall|n: nat|
            count_fits(n) && #[trigger] has_prefix(old(r).buf@, old(r).pos as int, enc_i32(n as i32))
                implies (res == Ok::<i32, SnapshotError>(n as i32) && r.pos == old(r).pos + 4) by {
            let x = n as i32;
            assert(has_prefix(old(r).buf@, old(r).pos as int, enc_i32(x)));
        }
    }
    res
}

fn read_fluid_section(r: &mut ByteReader) -> (res: Result<(Frequency, Vec<FluidStack>), SnapshotError>)
    requires
        old(r).wf(),
    ensures
        final(r).wf(),
        final(r).buf@ == old(r).buf@,
        forall|e: FluidSection|
            fluid_section_ok(e) && #[trigger] has_prefix(
                old(r).buf@,
                old(r).pos as int,
                fluid_section_bytes(e),
            ) ==> (res matches Ok(v) && v.0.0@ == e.0 && fluid_stacks_view(v.1@) == e.1
                && final(r).pos == old(r).pos + fluid_section_bytes(e).len()),
{
    let ghost data = r.buf@;
    let ghost at0 = r.pos as int;
    proof {
        assert forall|e: FluidSection|
            fluid_section_ok(e) && #[trigger] has_prefix(data, at0, fluid_section_bytes(e)) implies {
            &&& has_prefix(data, at0, enc_string(e.0))
            &&& has_prefix(data, at0 + enc_string(e.0).len(), enc_i32(e.1.len() as i32))
            &&& has_prefix(data, at0 + enc_string(e.0).len() + 4, fluid_list_bytes(e.1))
        } by {
            lemma_prefix3(data, at0, enc_string(e.0), enc_i32(e.1.len() as i32), fluid_list_bytes(e.1));
        }
    }
    let key = read_key(r)?;
    let n = read_count(r)?;
    let list = read_fluid_list(r, n)?;
    Ok((key, list))
}

fn read_item_section(r: &mut ByteReader) -> (res: Result<(Frequency, Vec<ItemStack>), SnapshotError>)
    requires
        old(r).wf(),
    ensures
        final(r).wf(),
        final(r).buf@ == old(r).buf@,
        forall|e: ItemSection|
            item_section_ok(e) && #[trigger] has_prefix(
                old(r).buf@,
                old(r).pos as int,
                item_section_bytes(e),
            ) ==> (res matches Ok(v) && v.0.0@ == e.0 && stacks_view(v.1@) == e.1
                && final(r).pos == old(r).pos + item_section_bytes(e).len()),
{
    let ghost data = r.buf@;
    let ghost at0 = r.pos as int;
    proof {
        assert forall|e: ItemSection|
            item_section_ok(e) && #[trigger] has_prefix(data, at0, item_section_bytes(e)) implies {
            let at1 = at0 + enc_string(e.0).len() + 4;
            &&& has_prefix(data, at0, enc_string(e.0))
            &&& has_prefix(data, at0 + enc_string(e.0).len(), enc_i32(e.1.len() as i32))
            &&& has_prefix(data, at1, item_headers_bytes(e.1))
            &&& has_prefix(data, at1 + item_headers_bytes(e.1).len(), item_extras_bytes(e.1))
        } by {
            lemma_prefix_split(
                data,
                at0,
                enc_string(e.0) + enc_i32(e.1.len() as i32) + item_headers_bytes(e.1),
                item_extras_bytes(e.1),
            );
            lemma_prefix3(data, at0, enc_string(e.0), enc_i32(e.1.len() as i32), item_headers_bytes(e.1));
            assert forall|k: int| 0 <= k < e.1.len() implies header_readable(#[trigger] e.1[k]) by {
                assert(item_canonical(e.1[k]));
            }
        }
    }
    let key = read_key(r)?;
    let n = read_count(r)?;
    let headers = wire_err(read_item_headers(r, n))?;
    let stacks = wire_err(read_item_extras(r, headers))?;
    Ok((key, stacks))
}

fn read_energy_section(r: &mut ByteReader) -> (res: Result<(Frequency, i64), SnapshotError>)
    requires
        old(r).wf(),
    ensures
        final(r).wf(),
        final(r).buf@ == old(r).buf@,
        forall|e: EnergySection|
            energy_section_ok(e) && #[trigger] has_prefix(
                old(r).buf@,
                old(r).pos as int,
                energy_section_bytes(e),
            ) ==> (res matches Ok(v) && v.0.0@ == e.0 && v.1 == e.1
                && final(r).pos == old(r).pos + energy_section_bytes(e).len()),
{
    let ghost data = r.buf@;
    let ghost at0 = r.pos as int;
    proof {
        assert forall|e: EnergySection|
            string_fits(e.0) && #[trigger] has_prefix(data, at0, energy_section_bytes(e)) implies {
            &&& has_prefix(data, at0, enc_string(e.0))
            &&& has_prefix(data, at0 + enc_string(e.0).len(), enc_i64(e.1))
        } by {
            lemma_prefix_split(data, at0, enc_string(e.0), enc_i64(e.1));
        }
    }
    let key = read_key(r)?;
    let v = wire_err(r.read_i64())?;
    Ok((key, v))
}

pub open spec fn energy_section_ok(e: EnergySection) -> bool {
    string_fits(e.0)
}

fn read_fluid_sections(r: &mut ByteReader, n: i32) -> (res: Result<Vec<(Frequency, Vec<FluidStack>)>, SnapshotError>)
    requires
        old(r).wf(),
    ensures
        final(r).wf(),
        final(r).buf@ == old(r).buf@,
        forall|m: Seq<FluidSection>|
            m.len() == n as int && (forall|k: int| 0 <= k < m.len() ==> fluid_section_ok(#[trigger] m[k]))
                && #[trigger] has_prefix(
                old(r).buf@,
                old(r).pos as int,
                fluid_sections_bytes(m),
            ) ==> (res matches Ok(v) && fluid_sections_view(v@) == m && final(r).pos == old(r).pos
                + fluid_sections_bytes(m).len()),
{
    let ghost data = r.buf@;
    let ghost at0 = r.pos as int;
    let ghost f = |e: FluidSection| fluid_section_bytes(e);
    let mut out: Vec<(Frequency, Vec<FluidStack>)> = Vec::new();
    let mut i: i32 = 0;
    while i < n
        invariant
            r.wf(),
            r.buf@ == data,
            0 <= i,
            i <= n || n < 0,
            at0 == old(r).pos as int,
            data == old(r).buf@,
            f == (|e: FluidSection| fluid_section_bytes(e)),
            forall|m: Seq<FluidSection>|
                m.len() == n as int && (forall|k: int| 0 <= k < m.len() ==> fluid_section_ok(#[trigger] m[k]))
                    && #[trigger] has_prefix(data, at0, concat_map(m, f)) ==> fluid_sections_view(out@) == m.take(
                    i as int,
                ) && r.pos == at0 + concat_map(m.take(i as int), f).len(),
        decreases n - i,
    {
        match read_fluid_section(r) {
            Ok(sec) => {
                out.push(sec);
                proof {
                    assert forall|m: Seq<FluidSection>|
                        m.len() == n as int && (forall|k: int| 0 <= k < m.len() ==> fluid_section_ok(#[trigger] m[k]))
                            && #[trigger] has_prefix(data, at0, concat_map(m, f)) implies fluid_sections_view(out@)
                        == m.take(i + 1) && r.pos == at0 + concat_map(m.take(i + 1), f).len() by {
                        lemma_concat_map_next(data, at0, m, f, i as int);
                        assert(fluid_section_ok(m[i as int]));
                        assert(fluid_sections_view(out@) =~= m.take(i + 1));
                    }
                }
            },
            Err(e) => {
                proof {
                    assert forall|m: Seq<FluidSection>|
                        m.len() == n as int && (forall|k: int| 0 <= k < m.len() ==> fluid_section_ok(#[trigger] m[k]))
                            && #[trigger] has_prefix(data, at0, concat_map(m, f)) implies false by {
                        lemma_concat_map_next(data, at0, m, f, i as int);
                        assert(fluid_section_ok(m[i as int]));
                    }
                }
                return Err(e);
            },
        }
        i = i + 1;
    }
    proof {
        assert forall|m: Seq<FluidSection>|
            m.len() == n as int && (forall|k: int| 0 <= k < m.len() ==> fluid_section_ok(#[trigger] m[k]))
                && #[trigger] has_prefix(data, at0, concat_map(m, f)) implies m.take(i as int) == m by {
            assert(m.take(i as int) =~= m);
        }
    }
    Ok(out)
}

fn read_item_sections(r: &mut ByteReader, n: i32) -> (res: Result<Vec<(Frequency, Vec<ItemStack>)>, SnapshotError>)
    requires
        old(r).wf(),
    ensures
        final(r).wf(),
        final(r).buf@ == old(r).buf@,
        forall|m: Seq<ItemSection>|
            m.len() == n as int && (forall|k: int| 0 <= k < m.len() ==> item_section_ok(#[trigger] m[k]))
                && #[trigger] has_prefix(
                old(r).buf@,
                old(r).pos as int,
                item_sections_bytes(m),
            ) ==> (res matches Ok(v) && item_sections_view(v@) == m && final(r).pos == old(r).pos
                + item_sections_bytes(m).len()),
{
    let ghost data = r.buf@;
    let ghost at0 = r.pos as int;
    let ghost f = |e: ItemSection| item_section_bytes(e);
    let mut out: Vec<(Frequency, Vec<ItemStack>)> = Vec::new();
    let mut i: i32 = 0;
    while i < n
        invariant
            r.wf(),
            r.buf@ == data,
            0 <= i,
            i <= n || n < 0,
            at0 == old(r).pos as int,
            data == old(r).buf@,
            f == (|e: ItemSection| item_section_bytes(e)),
            forall|m: Seq<ItemSection>|
                m.len() == n as int && (forall|k: int| 0 <= k < m.len() ==> item_section_ok(#[trigger] m[k]))
                    && #[trigger] has_prefix(data, at0, concat_map(m, f)) ==> item_sections_view(out@) == m.take(
                    i as int,
                ) && r.pos == at0 + concat_map(m.take(i as int), f).len(),
        decreases n - i,
    {
        match read_item_section(r) {
            Ok(sec) => {
                out.push(sec);
                proof {
                    assert forall|m: Seq<ItemSection>|
                        m.len() == n as int && (forall|k: int| 0 <= k < m.len() ==> item_section_ok(#[trigger] m[k]))
                            && #[trigger] has_prefix(data, at0, concat_map(m, f)) implies item_sections_view(out@)
                        == m.take(i + 1) && r.pos == at0 + concat_map(m.take(i + 1), f).len() by {
                        lemma_concat_map_next(data, at0, m, f, i as int);
                        assert(item_section_ok(m[i as int]));
                        assert(item_sections_view(out@) =~= m.take(i + 1));
                    }
                }
            },
            Err(e) => {
                proof {
                    assert forall|m: Seq<ItemSection>|
                        m.len() == n as int && (forall|k: int| 0 <= k < m.len() ==> item_section_ok(#[trigger] m[k]))
                            && #[trigger] has_prefix(data, at0, concat_map(m, f)) implies false by {
                        lemma_concat_map_next(data, at0, m, f, i as int);
                        assert(item_section_ok(m[i as int]));
                    }
                }
                return Err(e);
            },
        }
        i = i + 1;
    }
    proof {
        assert forall|m: Seq<ItemSection>|
            m.len() == n as int && (forall|k: int| 0 <= k < m.len() ==> item_section_ok(#[trigger] m[k]))
                && #[trigger] has_prefix(data, at0, concat_map(m, f)) implies m.take(i as int) == m by {
            assert(m.take(i as int) =~= m);
        }
    }
    Ok(out)
}

fn read_energy_sections(r: &mut ByteReader, n: i32) -> (res: Result<Vec<(Frequency, i64)>, SnapshotError>)
    requires
        old(r).wf(),
    ensures
        final(r).wf(),
        final(r).buf@ == old(r).buf@,
        forall|m: Seq<EnergySection>|
            m.len() == n as int && (forall|k: int| 0 <= k < m.len() ==> energy_section_ok(#[trigger] m[k]))
                && #[trigger] has_prefix(
                old(r).buf@,
                old(r).pos as int,
                energy_sections_bytes(m),
            ) ==> (res matches Ok(v) && energy_sections_view(v@) == m && final(r).pos == old(r).pos
                + energy_sections_bytes(m).len()),
{
    let ghost data = r.buf@;
    let ghost at0 = r.pos as int;
    let ghost f = |e: EnergySection| energy_section_bytes(e);
    let mut out: Vec<(Frequency, i64)> = Vec::new();
    let mut i: i32 = 0;
    while i < n
        invariant
            r.wf(),
            r.buf@ == data,
            0 <= i,
            i <= n || n < 0,
            at0 == old(r).pos as int,
            data == old(r).buf@,
            f == (|e: EnergySection| energy_section_bytes(e)),
            forall|m: Seq<EnergySection>|
                m.len() == n as int && (forall|k: int| 0 <= k < m.len() ==> energy_section_ok(#[trigger] m[k]))
                    && #[trigger] has_prefix(data, at0, concat_map(m, f)) ==> energy_sections_view(out@) == m.take(
                    i as int,
                ) && r.pos == at0 + concat_map(m.take(i as int), f).len(),
        decreases n - i,
    {
        match read_energy_section(r) {
            Ok(sec) => {
                out.push(sec);
                proof {
                    assert forall|m: Seq<EnergySection>|
                        m.len() == n as int && (forall|k: int| 0 <= k < m.len() ==> energy_section_ok(#[trigger] m[k]))
                            && #[trigger] has_prefix(data, at0, concat_map(m, f)) implies energy_sections_view(out@)
                        == m.take(i + 1) && r.pos == at0 + concat_map(m.take(i + 1), f).len() by {
                        lemma_concat_map_next(data, at0, m, f, i as int);
                        assert(energy_section_ok(m[i as int]));
                        assert(energy_sections_view(out@) =~= m.take(i + 1));
                    }
                }
            },
            Err(e) => {
                proof {
                    assert forall|m: Seq<EnergySection>|
                        m.len() == n as int && (forall|k: int| 0 <= k < m.len() ==> energy_section_ok(#[trigger] m[k]))
                            && #[trigger] has_prefix(data, at0, concat_map(m, f)) implies false by {
                        lemma_concat_map_next(data, at0, m, f, i as int);
                        assert(energy_section_ok(m[i as int]));
                    }
                }
                return Err(e);
            },
        }
        i = i + 1;
    }
    proof {
        assert forall|m: Seq<EnergySection>|
            m.len() == n as int && (forall|k: int| 0 <= k < m.len() ==> energy_section_ok(#[trigger] m[k]))
                && #[trigger] has_prefix(data, at0, concat_map(m, f)) implies m.take(i as int) == m by {
            assert(m.take(i as int) =~= m);
        }
    }
    Ok(out)
}

proof fn lemma_snapshot_parts(data: Seq<u8>, v: i64, m: SnapshotView)
    requires
        has_prefix(data, 0, snapshot_bytes(v, m)),
    ensures
        ({
            let at1 = 8int;
            let at2 = at1 + 4;
            let at3 = at2 + fluid_sections_bytes(m.fluids).len();
            let at4 = at3 + 4;
            let at5 = at4 + item_sections_bytes(m.items).len();
            let at6 = at5 + 4;
            &&& has_prefix(data, 0, enc_i64(v))
            &&& has_prefix(data, at1, enc_i32(m.fluids.len() as i32))
            &&& has_prefix(data, at2, fluid_sections_bytes(m.fluids))
            &&& has_prefix(data, at3, enc_i32(m.items.len() as i32))
            &&& has_prefix(data, at4, item_sections_bytes(m.items))
            &&& has_prefix(data, at5, enc_i32(m.energy.len() as i32))
            &&& has_prefix(data, at6, energy_sections_bytes(m.energy))
        }),
{
    let a = enc_i64(v);
    let b = enc_i32(m.fluids.len() as i32);
    let c = fluid_sections_bytes(m.fluids);
    let d = enc_i32(m.items.len() as i32);
    let e = item_sections_bytes(m.items);
    let f = enc_i32(m.energy.len() as i32);
    let g = energy_sections_bytes(m.energy);
    lemma_prefix_split(data, 0, a + b + c + d + e + f, g);
    lemma_prefix_split(data, 0, a + b + c + d + e, f);
    lemma_prefix_split(data, 0, a + b + c + d, e);
    lemma_prefix_split(data, 0, a + b + c, d);
    lemma_prefix_split(data, 0, a + b, c);
    lemma_prefix_split(data, 0, a, b);
}

/// Reads an uncompressed snapshot stream of format 2 or 3.
#[verifier::rlimit(40)]
pub fn read_snapshot(bytes: Vec<u8>) -> (res: Result<Snapshot, SnapshotError>)
    ensures
        forall|v: i64, m: SnapshotView|
            (v == 2 || v == 3) && snapshot_canonical(m) && #[trigger] has_prefix(
                bytes@,
                0,
                snapshot_bytes(v, m),
            ) ==> (res matches Ok(s) && s@ == m),
        forall|v: i64|
            v != 2 && v != 3 && #[trigger] has_prefix(bytes@, 0, enc_i64(v)) ==> res
                == Err::<Snapshot, SnapshotError>(SnapshotError::BadVersion),
        res is Ok ==> has_prefix(bytes@, 0, enc_i64(2)) || has_prefix(bytes@, 0, enc_i64(3)),
{
    let ghost data = bytes@;
    let mut r = ByteReader::new(bytes);
    proof {
        assert forall|v: i64, m: SnapshotView|
            (v == 2 || v == 3) && snapshot_canonical(m) && #[trigger] has_prefix(
                data,
                0,
                snapshot_bytes(v, m),
            ) implies {
            &&& forall|k: int| 0 <= k < m.fluids.len() ==> fluid_section_ok(#[trigger] m.fluids[k])
            &&& forall|k: int| 0 <= k < m.items.len() ==> item_section_ok(#[trigger] m.items[k])
            &&& forall|k: int| 0 <= k < m.energy.len() ==> energy_section_ok(#[trigger] m.energy[k])
        } by {
            lemma_snapshot_parts(data, v, m);
            assert forall|k: int| 0 <= k < m.fluids.len() implies fluid_section_ok(#[trigger] m.fluids[k]) by {
                assert forall|j: int| 0 <= j < m.fluids[k].1.len() implies fluid_canonical(#[trigger] m.fluids[k].1[j]) by {
                    assert(fluid_canonical(m.fluids[k].1[j]));
                }
            }
            assert forall|k: int| 0 <= k < m.items.len() implies item_section_ok(#[trigger] m.items[k]) by {
                assert forall|j: int| 0 <= j < m.items[k].1.len() implies item_canonical(#[trigger] m.items[k].1[j]) by {
                    assert(item_canonical(m.items[k].1[j]));
                }
            }
        }
    }
    let version = wire_err(r.read_i64())?;
    if version != 2 && version != SAVE_DATA_FORMAT {
        return Err(SnapshotError::BadVersion);
    }
    proof {
        assert forall|v: i64, m: SnapshotView|
            (v == 2 || v == 3) && snapshot_canonical(m) && #[trigger] has_prefix(
                data,
                0,
                snapshot_bytes(v, m),
            ) implies r.pos == 8 && has_prefix(data, r.pos as int, enc_i32(m.fluids.len() as i32)) by {
            lemma_snapshot_parts(data, v, m);
        }
    }
    let nf = read_count(&mut r)?;
    proof {
        assert forall|v: i64, m: SnapshotView|
            (v == 2 || v == 3) && snapshot_canonical(m) && #[trigger] has_prefix(
                data,
                0,
                snapshot_bytes(v, m),
            ) implies nf == m.fluids.len() as i32 && has_prefix(data, r.pos as int, fluid_sections_bytes(m.fluids)) by {
            lemma_snapshot_parts(data, v, m);
        }
    }
    let fluids = read_fluid_sections(&mut r, nf)?;
    proof {
        assert forall|v: i64, m: SnapshotView|
            (v == 2 || v == 3) && snapshot_canonical(m) && #[trigger] has_prefix(
                data,
                0,
                snapshot_bytes(v, m),
            ) implies fluid_sections_view(fluids@) == m.fluids && has_prefix(data, r.pos as int, enc_i32(m.items.len() as i32)) by {
            lemma_snapshot_parts(data, v, m);
        }
    }
    let ni = read_count(&mut r)?;
    proof {
        assert forall|v: i64, m: SnapshotView|
            (v == 2 || v == 3) && snapshot_canonical(m) && #[trigger] has_prefix(
                data,
                0,
                snapshot_bytes(v, m),
            ) implies ni == m.items.len() as i32 && has_prefix(data, r.pos as int, item_sections_bytes(m.items)) by {
            lemma_snapshot_parts(data, v, m);
        }
    }
    let items = read_item_sections(&mut r, ni)?;
    proof {
        assert forall|v: i64, m: SnapshotView|
            (v == 2 || v == 3) && snapshot_canonical(m) && #[trigger] has_prefix(
                data,
                0,
                snapshot_bytes(v, m),
            ) implies item_sections_view(items@) == m.items && has_prefix(data, r.pos as int, enc_i32(m.energy.len() as i32)) by {
            lemma_snapshot_parts(data, v, m);
        }
    }
    let ne = read_count(&mut r)?;
    proof {
        assert forall|v: i64, m: SnapshotView|
            (v == 2 || v == 3) && snapshot_canonical(m) && #[trigger] has_prefix(
                data,
                0,
                snapshot_bytes(v, m),
            ) implies ne == m.energy.len() as i32 && has_prefix(data, r.pos as int, energy_sections_bytes(m.energy)) by {
            lemma_snapshot_parts(data, v, m);
        }
    }
    let energy = read_energy_sections(&mut r, ne)?;
    proof {
        assert forall|v: i64, m: SnapshotView|
            (v == 2 || v == 3) && snapshot_canonical(m) && #[trigger] has_prefix(
                data,
                0,
                snapshot_bytes(v, m),
            ) implies fluid_sections_view(fluids@) == m.fluids && item_sections_view(items@) == m.items
            && energy_sections_view(energy@) == m.energy by {
            lemma_snapshot_parts(data, v, m);
        }
    }
    Ok(Snapshot { fluids, items, energy })
}

/// The fluid buffers after the fluid sections `secs` are loaded in turn: each
/// section's stacks go into a new buffer, the buffer it replaces is inserted
/// into that one after them.
pub open spec fn merge_fluid_map(
    m: Map<Seq<char>, Seq<FluidStackView>>,
    secs: Seq<FluidSection>,
) -> Map<Seq<char>, Seq<FluidStackView>>
    decreases secs.len(),
{
    if secs.len() == 0 {
        m
    } else {
        let m1 = merge_fluid_map(m, secs.drop_last());
        let e = secs.last();
        m1.insert(e.0, inserted_all(inserted_all(Seq::empty(), e.1), get_or(m1, e.0, Seq::empty())))
    }
}

/// The item buffers after the item sections `secs` are loaded in turn: the
/// stacks held before follow the loaded ones, whatever their number.
pub open spec fn merge_item_map(
    m: Map<Seq<char>, Seq<ItemStackView>>,
    secs: Seq<ItemSection>,
) -> Map<Seq<char>, Seq<ItemStackView>>
    decreases secs.len(),
{
    if secs.len() == 0 {
        m
    } else {
        let m1 = merge_item_map(m, secs.drop_last());
        let e = secs.last();
        m1.insert(e.0, e.1 + get_or(m1, e.0, Seq::empty()))
    }
}

/// The energy stores after the energy sections `secs` are loaded in turn:
/// a loaded value is added, saturating, to the value held before, and a
/// store that comes to zero is removed.
pub open spec fn merge_energy_map(m: Map<Seq<char>, i64>, secs: Seq<EnergySection>) -> Map<
    Seq<char>,
    i64,
>
    decreases secs.len(),
{
    if secs.len() == 0 {
        m
    } else {
        let m1 = merge_energy_map(m, secs.drop_last());
        let e = secs.last();
        let v = if m1.contains_key(e.0) {
            sat_add(e.1, m1[e.0])
        } else {
            e.1
        };
        if v == 0 {
            m1.remove(e.0)
        } else {
            m1.insert(e.0, v)
        }
    }
}

impl Registry {
    pub open spec fn item_view_map(&self) -> Map<Seq<char>, Seq<ItemStackView>> {
        self.item_map().map_values(|s: Seq<ItemStack>| stacks_view(s))
    }
}

impl Registry {
    /// Loads the sections of `s` into the registry in turn, merging each with
    /// the buffer it replaces.
    pub fn merge_snapshot(&mut self, s: Snapshot)
        requires
            old(self).wf(),
        ensures
            final(self).wf(),
            final(self).fluid_map() == merge_fluid_map(old(self).fluid_map(), s@.fluids),
            final(self).item_view_map() == merge_item_map(old(self).item_view_map(), s@.items),
            final(self).energy_map() == merge_energy_map(old(self).energy_map(), s@.energy),
    {
        let ghost sv = s@;
        let Snapshot { fluids, items, energy } = s;
        let ghost fl0 = fluids@;
        let ghost it0 = items@;
        let ghost en0 = energy@;
        let ghost m0 = *self;
        let mut rest = fluids;
        let ghost mut k: int = 0;
        while rest.len() > 0
            invariant
                self.wf(),
                0 <= k,
                k + rest@.len() == fl0.len(),
                rest@ == fl0.skip(k),
                sv.fluids == fluid_sections_view(fl0),
                self.fluid_map() == merge_fluid_map(m0.fluid_map(), sv.fluids.take(k)),
                self.item_map() == m0.item_map(),
                self.energy_map() == m0.energy_map(),
            decreases rest@.len(),
        {
            let (f, d) = rest.remove(0);
            proof {
                assert((f, d) == fl0[k]);
                assert(rest@ =~= fl0.skip(k + 1));
                assert(sv.fluids.take(k + 1).drop_last() =~= sv.fluids.take(k));
                assert(sv.fluids[k] == (f.0@, fluid_stacks_view(d@)));
            }
            let mut fresh = Fluids::new();
            fresh.insert_all(d);
            self.merge_fluids(f, fresh);
            proof {
                k = k + 1;
            }
        }
        proof {
            assert(sv.fluids.take(k) =~= sv.fluids);
        }
        let mut rest = items;
        let ghost mut k: int = 0;
        while rest.len() > 0
            invariant
                self.wf(),
                0 <= k,
                k + rest@.len() == it0.len(),
                rest@ == it0.skip(k),
                sv.items == item_sections_view(it0),
                self.item_view_map() == merge_item_map(m0.item_view_map(), sv.items.take(k)),
                self.fluid_map() == merge_fluid_map(m0.fluid_map(), sv.fluids),
                self.energy_map() == m0.energy_map(),
            decreases rest@.len(),
        {
            let (f, d) = rest.remove(0);
            let ghost before = self.item_map();
            proof {
                assert((f, d) == it0[k]);
                assert(rest@ =~= it0.skip(k + 1));
                assert(sv.items.take(k + 1).drop_last() =~= sv.items.take(k));
                assert(sv.items[k] == (f.0@, stacks_view(d@)));
            }
            let ghost key = f.0@;
            let ghost dv = d@;
            self.merge_items(f, d);
            proof {
                let old_exec = get_or(before, key, Seq::<ItemStack>::empty());
                let old_view = get_or(
                    before.map_values(|s: Seq<ItemStack>| stacks_view(s)),
                    key,
                    Seq::<ItemStackView>::empty(),
                );
                assert(stacks_view(old_exec) =~= old_view);
                assert(stacks_view(dv + old_exec) =~= stacks_view(dv) + old_view);
                assert(self.item_view_map() =~= before.map_values(
                    |s: Seq<ItemStack>| stacks_view(s),
                ).insert(key, stacks_view(dv) + old_view));
                k = k + 1;
            }
        }
        proof {
            assert(sv.items.take(k) =~= sv.items);
        }
        let mut rest = energy;
        let ghost mut k: int = 0;
        while rest.len() > 0
            invariant
                self.wf(),
                0 <= k,
                k + rest@.len() == en0.len(),
                rest@ == en0.skip(k),
                sv.energy == energy_sections_view(en0),
                self.energy_map() == merge_energy_map(m0.energy_map(), sv.energy.take(k)),
                self.item_view_map() == merge_item_map(m0.item_view_map(), sv.items),
                self.fluid_map() == merge_fluid_map(m0.fluid_map(), sv.fluids),
            decreases rest@.len(),
        {
            let (f, v) = rest.remove(0);
            proof {
                assert((f, v) == en0[k]);
                assert(rest@ =~= en0.skip(k + 1));
                assert(sv.energy.take(k + 1).drop_last() =~= sv.energy.take(k));
                assert(sv.energy[k] == (f.0@, v));
            }
            self.merge_energy(f, v);
            proof {
                k = k + 1;
            }
        }
        proof {
            assert(sv.energy.take(k) =~= sv.energy);
        }
    }
}

impl Registry {
    /// Reads an uncompressed snapshot stream and merges it into the registry;
    /// on an error the registry is left as it was.
    pub fn load_body(&mut self, bytes: Vec<u8>) -> (r: Result<(), SnapshotError>)
        requires
            old(self).wf(),
        ensures
            final(self).wf(),
            r is Err ==> final(self).fluid_map() == old(self).fluid_map()
                && final(self).item_view_map() == old(self).item_view_map()
                && final(self).energy_map() == old(self).energy_map(),
            forall|v: i64, m: SnapshotView|
                (v == 2 || v == 3) && snapshot_canonical(m) && #[trigger] has_prefix(
                    bytes@,
                    0,
                    snapshot_bytes(v, m),
                ) ==> r is Ok && final(self).fluid_map() == merge_fluid_map(
                    old(self).fluid_map(),
                    m.fluids,
                ) && final(self).item_view_map() == merge_item_map(
                    old(self).item_view_map(),
                    m.items,
                ) && final(self).energy_map() == merge_energy_map(old(self).energy_map(), m.energy),
            forall|v: i64|
                v != 2 && v != 3 && #[trigger] has_prefix(bytes@, 0, enc_i64(v)) ==> r
                    == Err::<(), SnapshotError>(SnapshotError::BadVersion),
    {
        let s = read_snapshot(bytes)?;
        self.merge_snapshot(s);
        Ok(())
    }
}

/// The registry's snapshot, gzip-compressed.
pub fn save(go: &Registry) -> (r: Result<Vec<u8>, SnapshotError>)
    ensures
        !snapshot_fits(registry_snapshot(*go)) ==> r is Err,
        snapshot_fits(registry_snapshot(*go)) ==> (r is Ok <==> gzip_of(
            snapshot_bytes(SAVE_DATA_FORMAT, registry_snapshot(*go)),
        ) is Some),
        r matches Ok(b) ==> gzip_of(snapshot_bytes(SAVE_DATA_FORMAT, registry_snapshot(*go)))
            == Some(b@),
{
    let body = go.save_body()?;
    match gzip_compress(body.as_slice()) {
        Some(gz) => Ok(gz),
        None => Err(SnapshotError::Gzip),
    }
}

/// Reads a gzip-compressed snapshot and merges it into the registry; on
/// an error the registry is left as it was.
pub fn load(go: &mut Registry, gz: &[u8]) -> (r: Result<(), SnapshotError>)
    requires
        old(go).wf(),
    ensures
        final(go).wf(),
        r is Err ==> final(go).fluid_map() == old(go).fluid_map()
            && final(go).item_view_map() == old(go).item_view_map()
            && final(go).energy_map() == old(go).energy_map(),
        gunzip_of(gz@) is None ==> r == Err::<(), SnapshotError>(SnapshotError::Gzip),
        forall|v: i64, m: SnapshotView, b: Seq<u8>|
            (v == 2 || v == 3) && snapshot_canonical(m) && gunzip_of(gz@) == Some(b)
                && #[trigger] has_prefix(b, 0, snapshot_bytes(v, m)) ==> r is Ok
                && final(go).fluid_map() == merge_fluid_map(old(go).fluid_map(), m.fluids)
                && final(go).item_view_map() == merge_item_map(old(go).item_view_map(), m.items)
                && final(go).energy_map() == merge_energy_map(old(go).energy_map(), m.energy),
        forall|v: i64, b: Seq<u8>|
            v != 2 && v != 3 && gunzip_of(gz@) == Some(b) && #[trigger] has_prefix(b, 0, enc_i64(v))
                ==> r == Err::<(), SnapshotError>(SnapshotError::BadVersion),
        forall|m: SnapshotView|
            snapshot_canonical(m) && #[trigger] gzip_of(snapshot_bytes(SAVE_DATA_FORMAT, m)) == Some(
                gz@,
            ) ==> r is Ok && final(go).fluid_map() == merge_fluid_map(old(go).fluid_map(), m.fluids)
                && final(go).item_view_map() == merge_item_map(old(go).item_view_map(), m.items)
                && final(go).energy_map() == merge_energy_map(old(go).energy_map(), m.energy),
{
    match gzip_decompress(gz) {
        Some(b) => {
            proof {
                assert forall|m: SnapshotView|
                    snapshot_canonical(m) && #[trigger] gzip_of(snapshot_bytes(SAVE_DATA_FORMAT, m))
                        == Some(gz@) implies has_prefix(b@, 0, snapshot_bytes(SAVE_DATA_FORMAT, m)) by {
                    assert(b@.subrange(0, b@.len() as int) =~= b@);
                }
            }
            go.load_body(b)
        },
        None => Err(SnapshotError::Gzip),
    }
}

proof fn lemma_fluids_reload(d: Seq<FluidStackView>, k: int)
    requires
        crate::fluid::ids_unique(d),
        0 <= k <= d.len(),
    ensures
        inserted_all(Seq::empty(), d.take(k)) == d.take(k),
    decreases k,
{
    if k > 0 {
        lemma_fluids_reload(d, k - 1);
        assert(d.take(k).drop_last() =~= d.take(k - 1));
        let t = d.take(k - 1);
        assert(!crate::fluid::has_id(t, d[k - 1].id)) by {
            if crate::fluid::has_id(t, d[k - 1].id) {
                let j = crate::fluid::id_index(t, d[k - 1].id);
                assert(d[j].id == d[k - 1].id);
            }
        }
        assert(t.push(d[k - 1]) =~= d.take(k));
    }
}

/// Loading the snapshot of a registry into an empty registry rebuilds its
/// buffers: the same fluid stacks per frequency and id, the same item stacks
/// per frequency in the same order, and the same energy per frequency.
pub proof fn law_snapshot_round_trip(r: Registry)
    requires
        r.wf(),
    ensures
        merge_fluid_map(Map::empty(), registry_snapshot(r).fluids) == r.fluid_map(),
        merge_item_map(Map::empty(), registry_snapshot(r).items) == r.item_view_map(),
        merge_energy_map(Map::empty(), registry_snapshot(r).energy) == r.energy_map(),
{
    let m = registry_snapshot(r);
    let fe = r.fluid_entries();
    let ie = r.item_entries();
    let ee = r.energy_entries();
    assert forall|k: int| 0 <= k <= fe.len() implies merge_fluid_map(Map::empty(), m.fluids.take(k))
        == entry_map(fe.take(k), |f: Fluids| fluids_of(f)) by {
        lemma_fluid_prefix(r, k);
    }
    assert forall|k: int| 0 <= k <= ie.len() implies merge_item_map(Map::empty(), m.items.take(k))
        == entry_map(ie.take(k), |i: Items| items_of(i)).map_values(|s: Seq<ItemStack>| stacks_view(s)) by {
        lemma_item_prefix(r, k);
    }
    assert forall|k: int| 0 <= k <= ee.len() implies merge_energy_map(Map::empty(), m.energy.take(k))
        == entry_map(ee.take(k), |v: i64| energy_of(v)) by {
        lemma_energy_prefix(r, k);
    }
    assert(m.fluids.take(fe.len() as int) =~= m.fluids);
    assert(fe.take(fe.len() as int) =~= fe);
    assert(m.items.take(ie.len() as int) =~= m.items);
    assert(ie.take(ie.len() as int) =~= ie);
    assert(m.energy.take(ee.len() as int) =~= m.energy);
    assert(ee.take(ee.len() as int) =~= ee);
}

proof fn lemma_fluid_prefix(r: Registry, k: int)
    requires
        r.wf(),
        0 <= k <= r.fluid_entries().len(),
    ensures
        merge_fluid_map(Map::empty(), registry_snapshot(r).fluids.take(k)) == entry_map(
            r.fluid_entries().take(k),
            |f: Fluids| fluids_of(f),
        ),
    decreases k,
{
    let m = registry_snapshot(r).fluids;
    let fe = r.fluid_entries();
    if k == 0 {
        assert(entry_map(fe.take(0), |f: Fluids| fluids_of(f)) =~= Map::empty());
    } else {
        lemma_fluid_prefix(r, k - 1);
        assert(m.take(k).drop_last() =~= m.take(k - 1));
        assert(fe.take(k) =~= fe.take(k - 1).push(fe[k - 1]));
        let t = fe.take(k - 1);
        assert(keys_unique(t));
        assert(!has_key(t, fe[k - 1].0.0@)) by {
            if has_key(t, fe[k - 1].0.0@) {
                let j = key_index(t, fe[k - 1].0.0@);
                assert(fe[j].0.0@ == fe[k - 1].0.0@);
            }
        }
        lemma_push(t, fe[k - 1], |f: Fluids| fluids_of(f));
        let d = fe[k - 1].1@;
        assert(fe[k - 1].1.wf());
        lemma_fluids_reload(d, d.len() as int);
        assert(d.take(d.len() as int) =~= d);
    }
}

proof fn lemma_item_prefix(r: Registry, k: int)
    requires
        r.wf(),
        0 <= k <= r.item_entries().len(),
    ensures
        merge_item_map(Map::empty(), registry_snapshot(r).items.take(k)) == entry_map(
            r.item_entries().take(k),
            |i: Items| items_of(i),
        ).map_values(|s: Seq<ItemStack>| stacks_view(s)),
    decreases k,
{
    let m = registry_snapshot(r).items;
    let ie = r.item_entries();
    if k == 0 {
        assert(entry_map(ie.take(0), |i: Items| items_of(i)).map_values(
            |s: Seq<ItemStack>| stacks_view(s),
        ) =~= Map::empty());
    } else {
        lemma_item_prefix(r, k - 1);
        assert(m.take(k).drop_last() =~= m.take(k - 1));
        assert(ie.take(k) =~= ie.take(k - 1).push(ie[k - 1]));
        let t = ie.take(k - 1);
        assert(!has_key(t, ie[k - 1].0.0@)) by {
            if has_key(t, ie[k - 1].0.0@) {
                let j = key_index(t, ie[k - 1].0.0@);
                assert(ie[j].0.0@ == ie[k - 1].0.0@);
            }
        }
        lemma_push(t, ie[k - 1], |i: Items| items_of(i));
        let d = stacks_view(ie[k - 1].1@);
        assert(d + Seq::<ItemStackView>::empty() =~= d);
        assert(merge_item_map(Map::empty(), m.take(k)) =~= entry_map(
            ie.take(k),
            |i: Items| items_of(i),
        ).map_values(|s: Seq<ItemStack>| stacks_view(s)));
    }
}

proof fn lemma_energy_prefix(r: Registry, k: int)
    requires
        r.wf(),
        0 <= k <= r.energy_entries().len(),
    ensures
        merge_energy_map(Map::empty(), registry_snapshot(r).energy.take(k)) == entry_map(
            r.energy_entries().take(k),
            |v: i64| energy_of(v),
        ),
    decreases k,
{
    let m = registry_snapshot(r).energy;
    let ee = r.energy_entries();
    if k == 0 {
        assert(entry_map(ee.take(0), |v: i64| energy_of(v)) =~= Map::empty());
    } else {
        lemma_energy_prefix(r, k - 1);
        assert(m.take(k).drop_last() =~= m.take(k - 1));
        assert(ee.take(k) =~= ee.take(k - 1).push(ee[k - 1]));
        let t = ee.take(k - 1);
        assert(!has_key(t, ee[k - 1].0.0@)) by {
            if has_key(t, ee[k - 1].0.0@) {
                let j = key_index(t, ee[k - 1].0.0@);
                assert(ee[j].0.0@ == ee[k - 1].0.0@);
            }
        }
        lemma_push(t, ee[k - 1], |v: i64| energy_of(v));
        assert(ee[k - 1].1 != 0);
    }
}

} // verus!
