//! Fluid stacks, their wire form, and the fluid buffer that merges stacks by id.
use vstd::prelude::*;
use crate::digest::{md5_digest, md5_of};
use crate::hex::{hex_upper, to_hex_string};
use crate::wire::{
    read_string,
    enc_i16, enc_i64, enc_string, has_prefix, lemma_prefix_split, string_fits, write_bytes,
    write_i16, write_i64, write_string, ByteReader, WireError,
};
use crate::{sat_add, saturating_add_i64};
use vstd::string::StringExecFns;

verus! {

/// The stacking key of a fluid: its name, then the upper-case hexadecimal MD5
/// digest of its nbt where it has one.
pub open spec fn fluid_id_of(name: Seq<char>, nbt: Option<Seq<u8>>) -> Seq<char> {
    match nbt {
        None => name,
        Some(b) => name + hex_upper(md5_of(b)),
    }
}

/// The key under which fluid stacks merge.
#[derive(Clone, Debug, PartialEq, Eq, Hash)]
pub struct FluidId(pub String);

impl FluidId {
    pub fn new(name: String, nbt: Option<&[u8]>) -> (r: FluidId)
        ensures
            r.0@ == fluid_id_of(name@, match nbt {
                None => None,
                Some(b) => Some(b@),
            }),
    {
        let mut name = name;
        match nbt {
            None => {},
            Some(b) => {
                let d = md5_digest(b);
                let h = to_hex_string(d.as_slice());
                name.append(h.as_str());
            },
        }
        FluidId(name)
    }
}

/// A quantity of one fluid.
#[derive(Clone, Debug, PartialEq, Eq, Hash)]
pub struct FluidStack {
    pub id: FluidId,
    pub name: String,
    pub count: i64,
    pub nbt: Option<Vec<u8>>,
}

pub struct FluidStackView {
    pub id: Seq<char>,
    pub name: Seq<char>,
    pub count: i64,
    pub nbt: Option<Seq<u8>>,
}

pub open spec fn bytes_opt_view(b: Option<Vec<u8>>) -> Option<Seq<u8>> {
    match b {
        None => None,
        Some(v) => Some(v@),
    }
}

impl View for FluidStack {
    type V = FluidStackView;

    open spec fn view(&self) -> FluidStackView {
        FluidStackView {
            id: self.id.0@,
            name: self.name@,
            count: self.count,
            nbt: bytes_opt_view(self.nbt),
        }
    }
}

/// A stack whose id is the one its name and nbt give.
pub open spec fn fluid_keyed(s: FluidStackView) -> bool {
    s.id == fluid_id_of(s.name, s.nbt)
}

/// The bytes that stand for a fluid stack on the wire.
pub open spec fn fluid_bytes(s: FluidStackView) -> Seq<u8> {
    enc_string(s.name) + enc_i64(s.count) + match s.nbt {
        None => enc_i16(0),
        Some(v) => enc_i16(v.len() as i16) + v,
    }
}

/// A fluid stack can be written: its name and nbt fit their length fields.
pub open spec fn fluid_fits(s: FluidStackView) -> bool {
    string_fits(s.name) && match s.nbt {
        Some(v) => v.len() <= 0x7fff,
        None => true,
    }
}

/// A fluid stack that reads back as it was written.
pub open spec fn fluid_canonical(s: FluidStackView) -> bool {
    fluid_fits(s) && fluid_keyed(s) && match s.nbt {
        Some(v) => v.len() > 0,
        None => true,
    }
}

/// The nbt that a fluid's length field `k` and the raw bytes after it stand
/// for: the bytes for a positive length, none for any other value.
pub open spec fn fluid_nbt_of_field(k: i16, raw: Seq<u8>) -> Option<Seq<u8>> {
    if k > 0 {
        Some(raw)
    } else {
        None
    }
}

/// A fluid stack as it stands in a stream: name, count, the nbt length field
/// `k`, and the raw bytes after it.
pub open spec fn fluid_frame(name: Seq<char>, count: i64, k: i16, raw: Seq<u8>) -> Seq<u8> {
    enc_string(name) + enc_i64(count) + enc_i16(k) + raw
}

/// The stack that a fluid frame stands for, keyed by its name and nbt.
pub open spec fn fluid_of_frame(name: Seq<char>, count: i64, k: i16, raw: Seq<u8>) -> FluidStackView {
    FluidStackView {
        id: fluid_id_of(name, fluid_nbt_of_field(k, raw)),
        name,
        count,
        nbt: fluid_nbt_of_field(k, raw),
    }
}

fn copy_bytes(v: &Vec<u8>) -> (r: Vec<u8>)
    ensures
        r@ == v@,
{
    let mut out: Vec<u8> = Vec::new();
    let mut i: usize = 0;
    while i < v.len()
        invariant
            i <= v@.len(),
            out@ == v@.subrange(0, i as int),
        decreases v@.len() - i,
    {
        out.push(v[i]);
        i = i + 1;
        assert(out@ =~= v@.subrange(0, i as int));
    }
    assert(v@.subrange(0, v@.len() as int) =~= v@);
    out
}

impl FluidStack {
    /// A stack of `count` of the fluid `name`, keyed by its name and nbt.
    pub fn new(name: String, count: i64, nbt: Option<Vec<u8>>) -> (r: FluidStack)
        ensures
            r@.name == name@,
            r@.count == count,
            r@.nbt == bytes_opt_view(nbt),
            fluid_keyed(r@),
    {
        let id = match &nbt {
            None => FluidId::new(name.clone(), None),
            Some(b) => FluidId::new(name.clone(), Some(b.as_slice())),
        };
        FluidStack { id, name, count, nbt }
    }

    /// A copy of this stack holding `count` instead.
    pub fn with_count(&self, count: i64) -> (r: FluidStack)
        ensures
            r@ == (FluidStackView { count, ..self@ }),
    {
        let nbt = match &self.nbt {
            None => None,
            Some(b) => Some(copy_bytes(b)),
        };
        FluidStack { id: FluidId(self.id.0.clone()), name: self.name.clone(), count, nbt }
    }

    /// Reads a fluid stack; its id is computed from its name and nbt.
    #[verifier::rlimit(40)]
    pub fn read(r: &mut ByteReader) -> (res: Result<FluidStack, WireError>)
        requires
            old(r).wf(),
        ensures
            final(r).wf(),
            final(r).buf@ == old(r).buf@,
            res matches Ok(t) ==> exists|k: i16, raw: Seq<u8>|
                raw.len() == crate::item::raw_len(k) && t@ == fluid_of_frame(t.name@, t.count, k, raw)
                    && #[trigger] has_prefix(
                    old(r).buf@,
                    old(r).pos as int,
                    fluid_frame(t.name@, t.count, k, raw),
                ) && final(r).pos == old(r).pos + fluid_frame(t.name@, t.count, k, raw).len(),
            forall|name: Seq<char>, count: i64, k: i16, raw: Seq<u8>|
                string_fits(name) && raw.len() == crate::item::raw_len(k) && #[trigger] has_prefix(
                    old(r).buf@,
                    old(r).pos as int,
                    fluid_frame(name, count, k, raw),
                ) ==> (res matches Ok(t) && t@ == fluid_of_frame(name, count, k, raw)
                    && final(r).pos == old(r).pos + fluid_frame(name, count, k, raw).len()),
            forall|x: FluidStackView|
                fluid_canonical(x) && #[trigger] has_prefix(
                    old(r).buf@,
                    old(r).pos as int,
                    fluid_bytes(x),
                ) ==> (res matches Ok(t) && t@ == x && final(r).pos == old(r).pos + fluid_bytes(
                    x,
                ).len()),
    {
        let ghost data = r.buf@;
        let ghost at0 = r.pos as int;
        proof {
            assert forall|x: FluidStackView| #[trigger]
                has_prefix(data, at0, fluid_bytes(x)) implies {
                let at1 = at0 + enc_string(x.name).len();
                &&& has_prefix(data, at0, enc_string(x.name))
                &&& has_prefix(data, at1, enc_i64(x.count))
                &&& has_prefix(data, at1 + 8, fluid_bytes(x).subrange(at1 + 8 - at0, fluid_bytes(x).len() as int))
            } by {
                let tail = match x.nbt {
                    None => enc_i16(0),
                    Some(v) => enc_i16(v.len() as i16) + v,
                };
                assert(fluid_bytes(x) =~= enc_string(x.name) + (enc_i64(x.count) + tail));
                lemma_prefix_split(data, at0, enc_string(x.name), enc_i64(x.count) + tail);
                lemma_prefix_split(data, at0 + enc_string(x.name).len(), enc_i64(x.count), tail);
                assert(fluid_bytes(x).subrange((enc_string(x.name).len() + 8) as int, fluid_bytes(x).len() as int) =~= tail);
            }
        }
        proof {
            assert forall|name: Seq<char>, count: i64, k: i16, raw: Seq<u8>|
                #[trigger] has_prefix(data, at0, fluid_frame(name, count, k, raw)) implies {
                let at1 = at0 + enc_string(name).len();
                &&& has_prefix(data, at0, enc_string(name))
                &&& has_prefix(data, at1, enc_i64(count))
                &&& has_prefix(data, at1 + 8, enc_i16(k))
                &&& has_prefix(data, at1 + 10, raw)
            } by {
                let a = enc_string(name);
                let b = enc_i64(count);
                let c = enc_i16(k);
                lemma_prefix_split(data, at0, a + b + c, raw);
                lemma_prefix_split(data, at0, a + b, c);
                lemma_prefix_split(data, at0, a, b);
            }
        }
        let name = read_string(r)?;
        let count = r.read_i64()?;
        let at2 = r.pos;
        let nbt_size = r.read_i16()?;
        let at3 = r.pos;
        let ghost mut raw: Seq<u8> = Seq::empty();
        let nbt = if nbt_size > 0 {
            let v = r.read_bytes(nbt_size as usize)?;
            proof {
                raw = v@;
            }
            Some(v)
        } else {
            None
        };
        let res = FluidStack::new(name, count, nbt);
        proof {
            let es = enc_string(res.name@);
            lemma_prefix_split(data, at0, es, enc_i64(count));
            lemma_prefix_split(data, at0, es + enc_i64(count), enc_i16(nbt_size));
            if nbt_size <= 0 {
                assert(data.subrange(at3 as int, at3 as int) =~= raw);
            }
            lemma_prefix_split(data, at0, es + enc_i64(count) + enc_i16(nbt_size), raw);
            assert(res@ == fluid_of_frame(res.name@, count, nbt_size, raw));
            assert(has_prefix(data, at0, fluid_frame(res.name@, count, nbt_size, raw)));
            assert forall|name2: Seq<char>, count2: i64, k: i16, raw2: Seq<u8>|
                string_fits(name2) && raw2.len() == crate::item::raw_len(k) && #[trigger] has_prefix(
                    data,
                    at0,
                    fluid_frame(name2, count2, k, raw2),
                ) implies res@ == fluid_of_frame(name2, count2, k, raw2) && r.pos == at0
                + fluid_frame(name2, count2, k, raw2).len() by {
                assert(raw2 =~= raw);
            }
            lemma_prefix_split(data, at0, enc_string(res.name@), enc_i64(count));
            assert forall|x: FluidStackView|
                fluid_canonical(x) && #[trigger] has_prefix(
                    data,
                    at0,
                    fluid_bytes(x),
                ) implies res@ == x && r.pos == at0 + fluid_bytes(x).len() by {
                let at1 = at0 + enc_string(x.name).len();
                let tail = fluid_bytes(x).subrange(at1 + 8 - at0, fluid_bytes(x).len() as int);
                match x.nbt {
                    Some(v) => {
                        assert(tail =~= enc_i16(v.len() as i16) + v);
                        lemma_prefix_split(data, at2 as int, enc_i16(v.len() as i16), v);
                    },
                    None => {
                        assert(tail =~= enc_i16(0));
                    },
                }
            }
        }
        Ok(res)
    }

    /// Writes a fluid stack; a name of more than 65535 bytes or an nbt of more
    /// than 32767 bytes is refused and nothing is written.
    pub fn write(&self, w: &mut Vec<u8>) -> (r: Result<(), WireError>)
        ensures
            r is Ok <==> fluid_fits(self@),
            r is Ok ==> final(w)@ == old(w)@ + fluid_bytes(self@),
            r matches Err(e) ==> e == WireError::TooLong && final(w)@ == old(w)@,
    {
        match &self.nbt {
            Some(v) => {
                if v.len() > 0x7fff {
                    return Err(WireError::TooLong);
                }
            },
            None => {},
        }
        write_string(w, self.name.as_str())?;
        write_i64(w, self.count);
        match &self.nbt {
            None => write_i16(w, 0),
            Some(v) => {
                write_i16(w, v.len() as i16);
                write_bytes(w, v.as_slice());
            },
        }
        assert(w@ =~= old(w)@ + fluid_bytes(self@));
        Ok(())
    }
}

/// Some stack in `s` has the id `id`.
pub open spec fn has_id(s: Seq<FluidStackView>, id: Seq<char>) -> bool {
    exists|i: int| 0 <= i < s.len() && (#[trigger] s[i]).id == id
}

/// Where the stack with the id `id` stands in `s`.
pub open spec fn id_index(s: Seq<FluidStackView>, id: Seq<char>) -> int {
    choose|i: int| 0 <= i < s.len() && (#[trigger] s[i]).id == id
}

/// No two stacks in `s` share an id.
pub open spec fn ids_unique(s: Seq<FluidStackView>) -> bool {
    forall|i: int, j: int| 0 <= i < s.len() && 0 <= j < s.len() && i != j ==> (#[trigger] s[i]).id != (#[trigger] s[j]).id
}

/// Every stack in `s` holds at least one unit.
pub open spec fn counts_positive(s: Seq<FluidStackView>) -> bool {
    forall|i: int| 0 <= i < s.len() ==> (#[trigger] s[i]).count >= 1
}

/// `x` merged into the stack `e` of the same id: the fields of `x`, the counts summed.
pub open spec fn merged(x: FluidStackView, e: FluidStackView) -> FluidStackView {
    FluidStackView { count: sat_add(x.count, e.count), ..x }
}

/// The buffer `s` after `x` is inserted.
pub open spec fn inserted(s: Seq<FluidStackView>, x: FluidStackView) -> Seq<FluidStackView> {
    if has_id(s, x.id) {
        s.update(id_index(s, x.id), merged(x, s[id_index(s, x.id)]))
    } else {
        s.push(x)
    }
}

/// The stack that a take request draws on: the first stack held for a
/// request without a name, else the stack with the request's id.
pub open spec fn take_source(s: Seq<FluidStackView>, req: FluidStackView) -> Option<int> {
    if req.name.len() == 0 {
        if s.len() == 0 {
            None
        } else {
            Some(0)
        }
    } else if has_id(s, req.id) {
        Some(id_index(s, req.id))
    } else {
        None
    }
}

/// How much a take request draws from `e`.
pub open spec fn take_amount(req: FluidStackView, e: FluidStackView) -> i64 {
    if req.count < e.count {
        req.count
    } else {
        e.count
    }
}

/// The stack handed out: the drawn stack's fields for a request without a
/// name, the request's own otherwise, with the amount drawn.
pub open spec fn taken_stack(req: FluidStackView, e: FluidStackView) -> FluidStackView {
    if req.name.len() == 0 {
        FluidStackView { count: take_amount(req, e), ..e }
    } else {
        FluidStackView { count: take_amount(req, e), ..req }
    }
}

/// The buffer after `take_amount` is drawn from the stack at `i`; a stack left
/// with less than one unit is removed.
pub open spec fn drawn(s: Seq<FluidStackView>, i: int, t: i64) -> Seq<FluidStackView> {
    if s[i].count - t < 1 {
        s.remove(i)
    } else {
        s.update(i, FluidStackView { count: (s[i].count - t) as i64, ..s[i] })
    }
}

/// The stacks `xs` inserted one after another into the fluid buffer `s`.
pub open spec fn inserted_all(s: Seq<FluidStackView>, xs: Seq<FluidStackView>) -> Seq<FluidStackView>
    decreases xs.len(),
{
    if xs.len() == 0 {
        s
    } else {
        inserted(inserted_all(s, xs.drop_last()), xs.last())
    }
}

pub open spec fn fluid_stacks_view(s: Seq<FluidStack>) -> Seq<FluidStackView> {
    s.map_values(|x: FluidStack| x@)
}

/// The fluid buffer of one frequency: at most one stack per id.
#[derive(Debug)]
pub struct Fluids {
    data: Vec<FluidStack>,
}

impl View for Fluids {
    type V = Seq<FluidStackView>;

    closed spec fn view(&self) -> Seq<FluidStackView> {
        self.data@.map_values(|x: FluidStack| x@)
    }
}

impl Fluids {
    pub open spec fn wf(&self) -> bool {
        ids_unique(self@)
    }

    pub fn new() -> (r: Fluids)
        ensures
            r.wf(),
            r@ == Seq::<FluidStackView>::empty(),
    {
        let r = Fluids { data: Vec::new() };
        assert(r@ =~= Seq::<FluidStackView>::empty());
        r
    }

    /// The stacks held.
    pub fn as_slice(&self) -> (r: &[FluidStack])
        ensures
            r@.map_values(|x: FluidStack| x@) == self@,
    {
        self.data.as_slice()
    }

    /// Gives up the stacks held.
    pub fn into_stacks(self) -> (r: Vec<FluidStack>)
        ensures
            r@.map_values(|x: FluidStack| x@) == self@,
    {
        self.data
    }

    pub fn len(&self) -> (r: usize)
        ensures
            r == self@.len(),
    {
        self.data.len()
    }

    fn find(&self, id: &String) -> (r: Option<usize>)
        requires
            self.wf(),
        ensures
            r is None <==> !has_id(self@, id@),
            r matches Some(i) ==> i < self@.len() && i == id_index(self@, id@),
    {
        let mut i: usize = 0;
        while i < self.data.len()
            invariant
                self.wf(),
                i <= self@.len(),
                self@.len() == self.data@.len(),
                forall|k: int| 0 <= k < i ==> (#[trigger] self@[k]).id != id@,
            decreases self.data@.len() - i,
        {
            if self.data[i].id.0.eq(id) {
                proof {
                    assert(self@[i as int] == self.data@[i as int]@);
                    assert(self@[i as int].id == id@);
                    let c = id_index(self@, id@);
                    assert(0 <= c < self@.len() && self@[c].id == id@);
                    if c != i as int {
                        assert(self@[c].id != self@[i as int].id);
                    }
                }
                return Some(i);
            }
            i = i + 1;
        }
        None
    }

    /// Inserts a stack, merging it with the stack of the same id: the merged
    /// stack keeps the incoming fields and the saturating sum of the counts.
    pub fn insert_fluid(&mut self, stack: FluidStack)
        requires
            old(self).wf(),
        ensures
            final(self).wf(),
            final(self)@ == inserted(old(self)@, stack@),
            stack.count >= 1 && counts_positive(old(self)@) ==> counts_positive(final(self)@),
    {
        let ghost orig = stack@;
        let mut stack = stack;
        match self.find(&stack.id.0) {
            Some(i) => {
                let existing = self.data[i].count;
                stack.count = saturating_add_i64(stack.count, existing);
                let ghost before = self@;
                self.data.set(i, stack);
                proof {
                    assert(self@ =~= before.update(i as int, merged(orig, before[i as int])));
                }
            },
            None => {
                self.data.push(stack);
                proof {
                    assert(self@ =~= old(self)@.push(stack@));
                }
            },
        }
    }

    /// Draws up to `request.count` from the stack that `request` names; a
    /// request with an empty name draws on the first stack held. Nothing is
    /// drawn, and `None` returned, where no such stack is held or the amount
    /// is not positive.
    pub fn take_fluid(&mut self, request: FluidStack) -> (r: Option<FluidStack>)
        requires
            old(self).wf(),
        ensures
            final(self).wf(),
            match take_source(old(self)@, request@) {
                None => r is None && final(self)@ == old(self)@,
                Some(i) => if take_amount(request@, old(self)@[i]) <= 0 {
                    r is None && final(self)@ == old(self)@
                } else {
                    r matches Some(t) && t@ == taken_stack(request@, old(self)@[i])
                        && final(self)@ == drawn(old(self)@, i, take_amount(request@, old(self)@[i]))
                },
            },
    {
        let idx = if request.name.as_str().is_empty() {
            if self.data.len() == 0 {
                return None;
            }
            0
        } else {
            match self.find(&request.id.0) {
                Some(i) => i,
                None => return None,
            }
        };
        let stored = self.data[idx].count;
        let t = if request.count < stored {
            request.count
        } else {
            stored
        };
        if t <= 0 {
            return None;
        }
        let out = if request.name.as_str().is_empty() {
            self.data[idx].with_count(t)
        } else {
            FluidStack { count: t, ..request }
        };
        let left = stored - t;
        let ghost before = self@;
        if left < 1 {
            self.data.remove(idx);
            proof {
                assert(self@ =~= before.remove(idx as int));
            }
        } else {
            let updated = self.data[idx].with_count(left);
            self.data.set(idx, updated);
            proof {
                assert(self@ =~= before.update(idx as int, FluidStackView { count: left, ..before[idx as int] }));
            }
        }
        Some(out)
    }

    /// Inserts `xs` one after another.
    pub fn insert_all(&mut self, xs: Vec<FluidStack>)
        requires
            old(self).wf(),
        ensures
            final(self).wf(),
            final(self)@ == inserted_all(old(self)@, fluid_stacks_view(xs@)),
    {
        let ghost orig = xs@;
        let ghost xv = fluid_stacks_view(xs@);
        let ghost start = self@;
        let mut rest = xs;
        let ghost mut k: int = 0;
        while rest.len() > 0
            invariant
                self.wf(),
                0 <= k,
                orig == xs@,
                k + rest@.len() == orig.len(),
                xv.len() == orig.len(),
                xv == fluid_stacks_view(orig),
                rest@ == orig.skip(k),
                self@ == inserted_all(start, xv.take(k)),
            decreases rest@.len(),
        {
            let x = rest.remove(0);
            proof {
                assert(x == orig[k]);
                assert(rest@ =~= orig.skip(k + 1));
                assert(xv.take(k + 1).drop_last() =~= xv.take(k));
            }
            self.insert_fluid(x);
            proof {
                k = k + 1;
            }
        }
        proof {
            assert(xv.take(k) =~= xv);
        }
    }
}

/// Inserting two stacks of one id into a buffer that holds none leaves the
/// saturating sum of their counts.
pub proof fn law_fluid_merge(s: Seq<FluidStackView>, x: FluidStackView, y: FluidStackView)
    requires
        ids_unique(s),
        !has_id(s, x.id),
        y.id == x.id,
    ensures
        has_id(inserted(inserted(s, x), y), x.id),
        inserted(inserted(s, x), y)[id_index(inserted(inserted(s, x), y), x.id)].count == sat_add(
            x.count,
            y.count,
        ),
{
    let s1 = inserted(s, x);
    assert(s1 == s.push(x));
    assert(s1[s.len() as int].id == x.id);
    assert(has_id(s1, x.id));
    let i = id_index(s1, x.id);
    assert(i == s.len()) by {
        if i < s.len() {
            assert(s[i].id == x.id);
        }
    }
    let s2 = inserted(s1, y);
    assert(s2 == s1.update(i, merged(y, x)));
    assert(s2[i].id == x.id);
    let j = id_index(s2, x.id);
    assert(j == i) by {
        if j != i {
            assert(s2[j] == s1[j]);
            assert(s[j].id == x.id);
        }
    }
}

/// A buffer with no stacks has nothing to hand out to a request without a name.
pub proof fn law_wildcard_take_empty(req: FluidStackView)
    requires
        req.name.len() == 0,
    ensures
        take_source(Seq::<FluidStackView>::empty(), req) is None,
{
}

} // verus!
