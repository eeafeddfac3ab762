//! The registry: the item, fluid and energy buffers of every frequency.
use vstd::prelude::*;
use crate::energy::{
    energy_receive, energy_send, recv_accept, recv_in_range, recv_reject, send_amount,
    ENERGY_BUFFER_LIMIT,
};
use crate::fluid::{
    drawn, inserted, inserted_all, take_amount, take_source, taken_stack, FluidStack, FluidStackView, Fluids,
};
use crate::{sat_add, saturating_add_i64};
use crate::item::{accept_count, take_count, ItemStack, Items};
use crate::table::{
    entry_map, find_key, has_key, keys_unique, lemma_push,
    lemma_remove, lemma_update, Frequency,
};

verus! {

pub open spec fn items_of(i: Items) -> Seq<ItemStack> {
    i@
}

pub open spec fn fluids_of(f: Fluids) -> Seq<FluidStackView> {
    f@
}

pub open spec fn energy_of(v: i64) -> i64 {
    v
}

/// The value a map holds at `k`, or `d` where it holds none.
pub open spec fn get_or<V>(m: Map<Seq<char>, V>, k: Seq<char>, d: V) -> V {
    if m.contains_key(k) {
        m[k]
    } else {
        d
    }
}

pub open spec fn fluid_opt_view(t: Option<FluidStack>) -> Option<FluidStackView> {
    match t {
        None => None,
        Some(x) => Some(x@),
    }
}

/// The stack a fluid request gets from the fluid buffers `m`, if any: none
/// where `f` has no buffer, or the buffer has nothing to draw on, or the
/// amount is not positive.
pub open spec fn fluid_take_result(
    m: Map<Seq<char>, Seq<FluidStackView>>,
    f: Seq<char>,
    req: FluidStackView,
) -> Option<FluidStackView> {
    if !m.contains_key(f) {
        None
    } else {
        match take_source(m[f], req) {
            None => None,
            Some(i) => if take_amount(req, m[f][i]) <= 0 {
                None
            } else {
                Some(taken_stack(req, m[f][i]))
            },
        }
    }
}

/// The fluid buffers after a fluid request: the drawn stack loses the
/// amount handed out, and goes where less than one unit is left.
pub open spec fn fluid_map_after_take(
    m: Map<Seq<char>, Seq<FluidStackView>>,
    f: Seq<char>,
    req: FluidStackView,
) -> Map<Seq<char>, Seq<FluidStackView>> {
    if !m.contains_key(f) {
        m
    } else {
        match take_source(m[f], req) {
            None => m,
            Some(i) => if take_amount(req, m[f][i]) <= 0 {
                m
            } else {
                m.insert(f, drawn(m[f], i, take_amount(req, m[f][i])))
            },
        }
    }
}

/// Every buffer of every frequency.
pub struct Registry {
    item_buffers: Vec<(Frequency, Items)>,
    fluid_buffers: Vec<(Frequency, Fluids)>,
    energy_buffers: Vec<(Frequency, i64)>,
}

impl Registry {
    /// The item buffers, in the order the registry keeps them.
    pub closed spec fn item_entries(&self) -> Seq<(Frequency, Items)> {
        self.item_buffers@
    }

    /// The fluid buffers, in the order the registry keeps them.
    pub closed spec fn fluid_entries(&self) -> Seq<(Frequency, Fluids)> {
        self.fluid_buffers@
    }

    /// The energy stores, in the order the registry keeps them.
    pub closed spec fn energy_entries(&self) -> Seq<(Frequency, i64)> {
        self.energy_buffers@
    }

    pub open spec fn item_map(&self) -> Map<Seq<char>, Seq<ItemStack>> {
        entry_map(self.item_entries(), |i: Items| items_of(i))
    }

    pub open spec fn fluid_map(&self) -> Map<Seq<char>, Seq<FluidStackView>> {
        entry_map(self.fluid_entries(), |f: Fluids| fluids_of(f))
    }

    pub open spec fn energy_map(&self) -> Map<Seq<char>, i64> {
        entry_map(self.energy_entries(), |v: i64| energy_of(v))
    }

    pub open spec fn wf(&self) -> bool {
        &&& keys_unique(self.item_entries())
        &&& keys_unique(self.fluid_entries())
        &&& keys_unique(self.energy_entries())
        &&& forall|i: int|
            0 <= i < self.fluid_entries().len() ==> (#[trigger] self.fluid_entries()[i]).1.wf()
        &&& forall|i: int|
            0 <= i < self.energy_entries().len() ==> (#[trigger] self.energy_entries()[i]).1 != 0
    }

    pub fn new() -> (r: Registry)
        ensures
            r.wf(),
            r.item_entries().len() == 0,
            r.fluid_entries().len() == 0,
            r.energy_entries().len() == 0,
            r.item_map() == Map::<Seq<char>, Seq<ItemStack>>::empty(),
            r.fluid_map() == Map::<Seq<char>, Seq<FluidStackView>>::empty(),
            r.energy_map() == Map::<Seq<char>, i64>::empty(),
    {
        let r = Registry {
            item_buffers: Vec::new(),
            fluid_buffers: Vec::new(),
            energy_buffers: Vec::new(),
        };
        assert(r.item_map() =~= Map::<Seq<char>, Seq<ItemStack>>::empty());
        assert(r.fluid_map() =~= Map::<Seq<char>, Seq<FluidStackView>>::empty());
        assert(r.energy_map() =~= Map::<Seq<char>, i64>::empty());
        r
    }

    pub fn item_buffers(&self) -> (r: &[(Frequency, Items)])
        ensures
            r@ == self.item_entries(),
    {
        self.item_buffers.as_slice()
    }

    pub fn fluid_buffers(&self) -> (r: &[(Frequency, Fluids)])
        ensures
            r@ == self.fluid_entries(),
    {
        self.fluid_buffers.as_slice()
    }

    pub fn energy_buffers(&self) -> (r: &[(Frequency, i64)])
        ensures
            r@ == self.energy_entries(),
    {
        self.energy_buffers.as_slice()
    }

    /// Offers stacks to the item buffer of `freq`, creating it if needed; the
    /// stacks that do not fit stay in `stacks`.
    pub fn insert_items(&mut self, freq: &Frequency, stacks: &mut Vec<ItemStack>)
        requires
            old(self).wf(),
        ensures
            final(self).wf(),
            final(self).item_map() == old(self).item_map().insert(
                freq.0@,
                get_or(old(self).item_map(), freq.0@, Seq::empty()) + old(stacks)@.take(
                    accept_count(
                        get_or(old(self).item_map(), freq.0@, Seq::empty()).len(),
                        old(stacks)@.len(),
                    ) as int,
                ),
            ),
            final(stacks)@ == old(stacks)@.skip(
                accept_count(
                    get_or(old(self).item_map(), freq.0@, Seq::empty()).len(),
                    old(stacks)@.len(),
                ) as int,
            ),
            final(self).fluid_map() == old(self).fluid_map(),
            final(self).energy_map() == old(self).energy_map(),
    {
        let ghost before = self.item_buffers@;
        match find_key(&self.item_buffers, freq) {
            Some(i) => {
                let (f, mut items) = self.item_buffers.remove(i);
                items.insert_items(stacks);
                self.item_buffers.insert(i, (f, items));
                proof {
                    assert(self.item_buffers@ =~= before.update(i as int, (f, items)));
                    lemma_update(before, i as int, (f, items), |i: Items| items_of(i));
                }
            },
            None => {
                let mut items = Items::new();
                items.insert_items(stacks);
                let f = freq.copy();
                self.item_buffers.push((f, items));
                proof {
                    lemma_push(before, (f, items), |i: Items| items_of(i));
                    assert(Seq::<ItemStack>::empty() + items@ =~= items@);
                }
            },
        }
        proof {
            assert(self.fluid_map() == old(self).fluid_map());
        }
    }

    /// Takes up to `max_stacks` stacks from the head of the item buffer of
    /// `freq`; `None` where the frequency has no item buffer.
    pub fn take_items(&mut self, freq: &Frequency, max_stacks: i32) -> (r: Option<Vec<ItemStack>>)
        requires
            old(self).wf(),
        ensures
            final(self).wf(),
            !old(self).item_map().contains_key(freq.0@) ==> r is None && final(self).item_map()
                == old(self).item_map(),
            old(self).item_map().contains_key(freq.0@) ==> {
                let held = old(self).item_map()[freq.0@];
                let k = take_count(held.len(), max_stacks) as int;
                &&& r matches Some(v) && v@ == held.take(k)
                &&& final(self).item_map() == old(self).item_map().insert(freq.0@, held.skip(k))
            },
            final(self).fluid_map() == old(self).fluid_map(),
            final(self).energy_map() == old(self).energy_map(),
    {
        let ghost before = self.item_buffers@;
        match find_key(&self.item_buffers, freq) {
            Some(i) => {
                let (f, mut items) = self.item_buffers.remove(i);
                let taken = items.take_items(max_stacks);
                self.item_buffers.insert(i, (f, items));
                proof {
                    assert(self.item_buffers@ =~= before.update(i as int, (f, items)));
                    lemma_update(before, i as int, (f, items), |i: Items| items_of(i));
                }
                Some(taken)
            },
            None => None,
        }
    }

    /// Inserts a fluid stack into the fluid buffer of `freq`, creating it if needed.
    pub fn insert_fluid(&mut self, freq: &Frequency, stack: FluidStack)
        requires
            old(self).wf(),
        ensures
            final(self).wf(),
            final(self).fluid_map() == old(self).fluid_map().insert(
                freq.0@,
                inserted(get_or(old(self).fluid_map(), freq.0@, Seq::empty()), stack@),
            ),
            final(self).item_map() == old(self).item_map(),
            final(self).energy_map() == old(self).energy_map(),
    {
        let ghost before = self.fluid_buffers@;
        match find_key(&self.fluid_buffers, freq) {
            Some(i) => {
                let (f, mut fluids) = self.fluid_buffers.remove(i);
                proof {
                    assert(before[i as int].1.wf());
                }
                fluids.insert_fluid(stack);
                self.fluid_buffers.insert(i, (f, fluids));
                proof {
                    assert(self.fluid_buffers@ =~= before.update(i as int, (f, fluids)));
                    lemma_update(before, i as int, (f, fluids), |f: Fluids| fluids_of(f));
                }
            },
            None => {
                let mut fluids = Fluids::new();
                fluids.insert_fluid(stack);
                let f = freq.copy();
                self.fluid_buffers.push((f, fluids));
                proof {
                    lemma_push(before, (f, fluids), |f: Fluids| fluids_of(f));
                }
            },
        }
        proof {
            assert forall|i: int| 0 <= i < self.fluid_entries().len() implies (
            #[trigger] self.fluid_entries()[i]).1.wf() by {
                if self.fluid_entries()[i] != before[i] {
                }
            }
        }
    }

    /// Draws fluid from the fluid buffer of `freq` as `Fluids::take_fluid`
    /// does; `None` where the frequency has no fluid buffer.
    pub fn take_fluid(&mut self, freq: &Frequency, request: FluidStack) -> (r: Option<FluidStack>)
        requires
            old(self).wf(),
        ensures
            final(self).wf(),
            fluid_opt_view(r) == fluid_take_result(old(self).fluid_map(), freq.0@, request@),
            final(self).fluid_map() == fluid_map_after_take(old(self).fluid_map(), freq.0@, request@),
            final(self).item_map() == old(self).item_map(),
            final(self).energy_map() == old(self).energy_map(),
    {
        let ghost before = self.fluid_buffers@;
        match find_key(&self.fluid_buffers, freq) {
            Some(i) => {
                let (f, mut fluids) = self.fluid_buffers.remove(i);
                proof {
                    assert(before[i as int].1.wf());
                }
                let ghost held = fluids@;
                let r = fluids.take_fluid(request);
                self.fluid_buffers.insert(i, (f, fluids));
                proof {
                    assert(self.fluid_buffers@ =~= before.update(i as int, (f, fluids)));
                    lemma_update(before, i as int, (f, fluids), |f: Fluids| fluids_of(f));
                    if fluids@ == held {
                        assert(self.fluid_map() =~= old(self).fluid_map());
                    }
                    assert forall|j: int| 0 <= j < self.fluid_entries().len() implies (
                    #[trigger] self.fluid_entries()[j]).1.wf() by {
                        if j != i {
                            assert(self.fluid_entries()[j] == before[j]);
                        }
                    }
                }
                r
            },
            None => None,
        }
    }

    /// Takes energy that a client offers into the store of `freq`; returns
    /// the amount rejected. A store left at zero is removed. `None`, with
    /// nothing changed, where the stored value is so far below zero that the
    /// room under the limit overflows 64-bit arithmetic.
    pub fn receive_energy(&mut self, freq: &Frequency, offered: i64) -> (r: Option<i64>)
        requires
            old(self).wf(),
        ensures
            final(self).wf(),
            ({
                let cur = get_or(old(self).energy_map(), freq.0@, 0i64);
                let stored = cur + recv_accept(cur, offered);
                if recv_in_range(cur) {
                    &&& r == Some(recv_reject(cur, offered) as i64)
                    &&& if stored == 0 {
                        final(self).energy_map() == old(self).energy_map().remove(freq.0@)
                    } else {
                        final(self).energy_map() == old(self).energy_map().insert(
                            freq.0@,
                            stored as i64,
                        )
                    }
                } else {
                    r is None && final(self).energy_map() == old(self).energy_map()
                }
            }),
            ({
                let cur = get_or(old(self).energy_map(), freq.0@, 0i64);
                0 <= cur <= ENERGY_BUFFER_LIMIT ==> r is Some && (final(self).energy_map().contains_key(freq.0@) ==> 0 < final(self).energy_map()[freq.0@]
                    <= ENERGY_BUFFER_LIMIT)
            }),
            forall|k: Seq<char>|
                #[trigger] final(self).energy_map().contains_key(k) && k != freq.0@ ==> old(self).energy_map().contains_key(k) && final(self).energy_map()[k] == old(self).energy_map()[k],
            final(self).item_map() == old(self).item_map(),
            final(self).fluid_map() == old(self).fluid_map(),
    {
        let ghost before = self.energy_buffers@;
        let found = find_key(&self.energy_buffers, freq);
        let cur = match found {
            Some(i) => self.energy_buffers[i].1,
            None => 0,
        };
        proof {
            if has_key(before, freq.0@) {
                assert(self.energy_map().contains_key(freq.0@));
            }
        }
        if cur < ENERGY_BUFFER_LIMIT - i64::MAX {
            return None;
        }
        let (stored, reject) = energy_receive(cur, offered);
        match found {
            Some(i) => {
                if stored != 0 {
                    let f = freq.copy();
                    self.energy_buffers.set(i, (f, stored));
                    proof {
                        lemma_update(before, i as int, (f, stored), |v: i64| energy_of(v));
                    }
                } else {
                    self.energy_buffers.remove(i);
                    proof {
                        lemma_remove(before, i as int, |v: i64| energy_of(v));
                    }
                }
            },
            None => {
                if stored != 0 {
                    let f = freq.copy();
                    self.energy_buffers.push((f, stored));
                    proof {
                        lemma_push(before, (f, stored), |v: i64| energy_of(v));
                    }
                } else {
                    proof {
                        assert(old(self).energy_map() =~= old(self).energy_map().remove(freq.0@));
                    }
                }
            },
        }
        Some(reject)
    }

    /// Sends energy from the store of `freq` to a client; returns the amount
    /// sent. A store left at zero or below is removed.
    pub fn send_energy(&mut self, freq: &Frequency, want: i64) -> (r: i64)
        requires
            old(self).wf(),
        ensures
            final(self).wf(),
            ({
                let cur = get_or(old(self).energy_map(), freq.0@, 0i64);
                &&& r == send_amount(cur, want)
                &&& if cur - send_amount(cur, want) > 0 {
                    final(self).energy_map() == old(self).energy_map().insert(
                        freq.0@,
                        (cur - send_amount(cur, want)) as i64,
                    )
                } else {
                    final(self).energy_map() == old(self).energy_map().remove(freq.0@)
                }
            }),
            ({
                let cur = get_or(old(self).energy_map(), freq.0@, 0i64);
                0 <= cur <= ENERGY_BUFFER_LIMIT && final(self).energy_map().contains_key(freq.0@)
                    ==> 0 <= final(self).energy_map()[freq.0@] <= ENERGY_BUFFER_LIMIT
            }),
            final(self).item_map() == old(self).item_map(),
            final(self).fluid_map() == old(self).fluid_map(),
    {
        let ghost before = self.energy_buffers@;
        let found = find_key(&self.energy_buffers, freq);
        let cur = match found {
            Some(i) => self.energy_buffers[i].1,
            None => 0,
        };
        proof {
            if has_key(before, freq.0@) {
                assert(self.energy_map().contains_key(freq.0@));
            }
        }
        let (left, sent) = energy_send(cur, want);
        match found {
            Some(i) => {
                if left > 0 {
                    let f = freq.copy();
                    self.energy_buffers.set(i, (f, left));
                    proof {
                        lemma_update(before, i as int, (f, left), |v: i64| energy_of(v));
                    }
                } else {
                    self.energy_buffers.remove(i);
                    proof {
                        lemma_remove(before, i as int, |v: i64| energy_of(v));
                    }
                }
            },
            None => {
                if left > 0 {
                    let f = freq.copy();
                    self.energy_buffers.push((f, left));
                    proof {
                        lemma_push(before, (f, left), |v: i64| energy_of(v));
                    }
                } else {
                    proof {
                        assert(old(self).energy_map() =~= old(self).energy_map().remove(freq.0@));
                    }
                }
            },
        }
        sent
    }
    /// Installs `loaded` as the fluid buffer of `freq`, after inserting into
    /// it the stacks of the buffer it replaces.
    pub fn merge_fluids(&mut self, freq: Frequency, loaded: Fluids)
        requires
            old(self).wf(),
            loaded.wf(),
        ensures
            final(self).wf(),
            final(self).fluid_map() == old(self).fluid_map().insert(
                freq.0@,
                inserted_all(loaded@, get_or(old(self).fluid_map(), freq.0@, Seq::empty())),
            ),
            final(self).item_map() == old(self).item_map(),
            final(self).energy_map() == old(self).energy_map(),
    {
        let ghost before = self.fluid_buffers@;
        let mut loaded = loaded;
        match find_key(&self.fluid_buffers, &freq) {
            Some(i) => {
                let (f, held) = self.fluid_buffers.remove(i);
                let stacks = held.into_stacks();
                loaded.insert_all(stacks);
                self.fluid_buffers.insert(i, (f, loaded));
                proof {
                    assert(self.fluid_buffers@ =~= before.update(i as int, (f, loaded)));
                    lemma_update(before, i as int, (f, loaded), |f: Fluids| fluids_of(f));
                    assert forall|j: int| 0 <= j < self.fluid_entries().len() implies (
                    #[trigger] self.fluid_entries()[j]).1.wf() by {
                        if j != i {
                            assert(self.fluid_entries()[j] == before[j]);
                        }
                    }
                }
            },
            None => {
                proof {
                    assert(inserted_all(loaded@, Seq::empty()) == loaded@);
                }
                self.fluid_buffers.push((freq, loaded));
                proof {
                    lemma_push(before, (freq, loaded), |f: Fluids| fluids_of(f));
                    assert forall|j: int| 0 <= j < self.fluid_entries().len() implies (
                    #[trigger] self.fluid_entries()[j]).1.wf() by {
                        if j < before.len() {
                            assert(self.fluid_entries()[j] == before[j]);
                        }
                    }
                }
            },
        }
    }

    /// Installs `loaded` as the item buffer of `freq`, followed by the stacks
    /// of the buffer it replaces, whatever their number.
    pub fn merge_items(&mut self, freq: Frequency, loaded: Vec<ItemStack>)
        requires
            old(self).wf(),
        ensures
            final(self).wf(),
            final(self).item_map() == old(self).item_map().insert(
                freq.0@,
                loaded@ + get_or(old(self).item_map(), freq.0@, Seq::empty()),
            ),
            final(self).fluid_map() == old(self).fluid_map(),
            final(self).energy_map() == old(self).energy_map(),
    {
        let ghost before = self.item_buffers@;
        let mut loaded = loaded;
        match find_key(&self.item_buffers, &freq) {
            Some(i) => {
                let (f, held) = self.item_buffers.remove(i);
                let mut stacks = held.into_stacks();
                loaded.append(&mut stacks);
                let items = Items::from_stacks(loaded);
                self.item_buffers.insert(i, (f, items));
                proof {
                    assert(self.item_buffers@ =~= before.update(i as int, (f, items)));
                    lemma_update(before, i as int, (f, items), |i: Items| items_of(i));
                }
            },
            None => {
                let items = Items::from_stacks(loaded);
                self.item_buffers.push((freq, items));
                proof {
                    lemma_push(before, (freq, items), |i: Items| items_of(i));
                    assert(items@ + Seq::<ItemStack>::empty() =~= items@);
                }
            },
        }
        proof {
            assert(self.fluid_map() == old(self).fluid_map());
        }
    }

    /// Adds `value`, saturating, to the energy store of `freq`.
    pub fn merge_energy(&mut self, freq: Frequency, value: i64)
        requires
            old(self).wf(),
        ensures
            final(self).wf(),
            ({
                let v = if old(self).energy_map().contains_key(freq.0@) {
                    sat_add(value, old(self).energy_map()[freq.0@])
                } else {
                    value
                };
                if v == 0 {
                    final(self).energy_map() == old(self).energy_map().remove(freq.0@)
                } else {
                    final(self).energy_map() == old(self).energy_map().insert(freq.0@, v)
                }
            }),
            final(self).item_map() == old(self).item_map(),
            final(self).fluid_map() == old(self).fluid_map(),
    {
        let ghost before = self.energy_buffers@;
        match find_key(&self.energy_buffers, &freq) {
            Some(i) => {
                let v = saturating_add_i64(value, self.energy_buffers[i].1);
                proof {
                    assert(old(self).energy_map().contains_key(freq.0@));
                }
                if v != 0 {
                    self.energy_buffers.set(i, (freq, v));
                    proof {
                        lemma_update(before, i as int, (freq, v), |v: i64| energy_of(v));
                    }
                } else {
                    self.energy_buffers.remove(i);
                    proof {
                        lemma_remove(before, i as int, |v: i64| energy_of(v));
                    }
                }
            },
            None => {
                if value != 0 {
                    self.energy_buffers.push((freq, value));
                    proof {
                        lemma_push(before, (freq, value), |v: i64| energy_of(v));
                    }
                } else {
                    proof {
                        assert(old(self).energy_map() =~= old(self).energy_map().remove(freq.0@));
                    }
                }
            },
        }
    }
}

} // verus!
