use vstd::prelude::*;

use crate::fluid_properties::{FluidCollection, InvalidFluidId};

verus! {

/// An amount of a specific fluid.
///
/// `A` is the type in which amounts (moles) and energies are counted.
#[derive(Clone, Copy, Debug)]
pub struct Fluid<A> {
    pub fluid_id: usize,
    /// Moles
    pub moles: A,
}

/// A mixture of fluids with an energy.
///
/// The fluids are kept in ascending order of their ids, and each id occurs
/// at most once.
pub struct Mixture<A> {
    fluids: Vec<Fluid<A>>,
    /// Joules
    energy: A,
}

/// The fluids of `s` have strictly ascending ids (so no id occurs twice).
pub open spec fn ids_ascending<A>(s: Seq<Fluid<A>>) -> bool {
    forall|i: int, j: int| 0 <= i < j < s.len() ==> s[i].fluid_id < s[j].fluid_id
}

/// Some entry of `s` is a fluid with id `fluid_id`.
pub open spec fn holds_fluid<A>(s: Seq<Fluid<A>>, fluid_id: usize) -> bool {
    exists|i: int| 0 <= i < s.len() && s[i].fluid_id == fluid_id
}

/// The amount of each fluid that `s` holds, by fluid id.
pub open spec fn amounts<A>(s: Seq<Fluid<A>>) -> Map<usize, A> {
    Map::new(
        |fluid_id: usize| holds_fluid(s, fluid_id),
        |fluid_id: usize| s[choose|i: int| 0 <= i < s.len() && s[i].fluid_id == fluid_id].moles,
    )
}

/// `r` holds the amounts of `a` and `b` together: an id of only one of them
/// keeps its amount, and an id of both gets an amount that `plus` may return
/// for the amount in `a` and the amount in `b`, in that order.
pub open spec fn combined<A, F: Fn(A, A) -> A>(
    a: Map<usize, A>,
    b: Map<usize, A>,
    plus: F,
    r: Map<usize, A>,
) -> bool {
    &&& r.dom() == a.dom().union(b.dom())
    &&& forall|k: usize| #[trigger]
        r.contains_key(k) ==> {
            &&& (a.contains_key(k) && b.contains_key(k)) ==> plus.ensures((a[k], b[k]), r[k])
            &&& (a.contains_key(k) && !b.contains_key(k)) ==> r[k] == a[k]
            &&& (!a.contains_key(k) && b.contains_key(k)) ==> r[k] == b[k]
        }
}

/// The amounts of `s` when its fluids are added one after another, starting
/// from nothing: each step combines the amounts so far with the next fluid.
pub open spec fn accumulated<A, F: Fn(A, A) -> A>(
    s: Seq<Fluid<A>>,
    plus: F,
    r: Map<usize, A>,
) -> bool {
    exists|steps: Seq<Map<usize, A>>|
        {
            &&& steps.len() == s.len() + 1
            &&& steps[0] == Map::<usize, A>::empty()
            &&& forall|i: int|
                0 <= i < s.len() ==> combined(
                    #[trigger] steps[i],
                    map![s[i].fluid_id => s[i].moles],
                    plus,
                    steps[i + 1],
                )
            &&& steps[s.len() as int] == r
        }
}

// ---------------------------------------------------------------------------
// Lemmas on the amounts of an ordered list of fluids
// ---------------------------------------------------------------------------

/// In a list with ascending ids each entry is the one amount stored under its id.
pub proof fn lemma_amounts_ascending<A>(s: Seq<Fluid<A>>)
    requires
        ids_ascending(s),
    ensures
        forall|i: int|
            #![trigger s[i]]
            0 <= i < s.len() ==> amounts(s).contains_key(s[i].fluid_id) && amounts(s)[s[i].fluid_id]
                == s[i].moles,
        forall|k: usize| amounts(s).contains_key(k) <==> holds_fluid(s, k),
{
    assert forall|i: int| 0 <= i < s.len() implies amounts(s).contains_key(s[i].fluid_id)
        && amounts(s)[s[i].fluid_id] == s[i].moles by {
        let id = s[i].fluid_id;
        assert(holds_fluid(s, id));
        let j = choose|j: int| 0 <= j < s.len() && s[j].fluid_id == id;
        assert(j == i);
    }
}

/// Inserting a fluid at the place that keeps the ids ascending adds its id
/// with its amount.
pub proof fn lemma_amounts_insert<A>(s: Seq<Fluid<A>>, p: int, f: Fluid<A>)
    requires
        0 <= p <= s.len(),
        ids_ascending(s.insert(p, f)),
    ensures
        ids_ascending(s),
        !amounts(s).contains_key(f.fluid_id),
        amounts(s.insert(p, f)) == amounts(s).insert(f.fluid_id, f.moles),
{
    let t = s.insert(p, f);
    assert forall|i: int, j: int| 0 <= i < j < s.len() implies s[i].fluid_id
        < s[j].fluid_id by {
        let ti = if i < p { i } else { i + 1 };
        let tj = if j < p { j } else { j + 1 };
        assert(t[ti] == s[i]);
        assert(t[tj] == s[j]);
    }
    lemma_amounts_ascending(s);
    lemma_amounts_ascending(t);
    assert(t[p] == f);
    if holds_fluid(s, f.fluid_id) {
        let i = choose|i: int| 0 <= i < s.len() && s[i].fluid_id == f.fluid_id;
        let ti = if i < p { i } else { i + 1 };
        assert(t[ti] == s[i]);
        assert(false);
    }
    let m = amounts(s).insert(f.fluid_id, f.moles);
    assert forall|k: usize| amounts(t).contains_key(k) <==> m.contains_key(k) by {
        if holds_fluid(t, k) {
            let i = choose|i: int| 0 <= i < t.len() && t[i].fluid_id == k;
            if i < p {
                assert(s[i] == t[i]);
            } else if i > p {
                assert(s[i - 1] == t[i]);
            }
        }
        if holds_fluid(s, k) {
            let i = choose|i: int| 0 <= i < s.len() && s[i].fluid_id == k;
            let ti = if i < p { i } else { i + 1 };
            assert(t[ti] == s[i]);
        }
    }
    assert forall|k: usize| #[trigger] amounts(t).contains_key(k) implies amounts(t)[k] == m[k] by {
        let i = choose|i: int| 0 <= i < t.len() && t[i].fluid_id == k;
        if i < p {
            assert(s[i] == t[i]);
        } else if i > p {
            assert(s[i - 1] == t[i]);
        }
    }
    assert(amounts(t) =~= m);
}

/// Changing the amount of one entry changes the amount stored under its id.
pub proof fn lemma_amounts_update<A>(s: Seq<Fluid<A>>, i: int, moles: A)
    requires
        0 <= i < s.len(),
        ids_ascending(s),
    ensures
        ids_ascending(s.update(i, Fluid { fluid_id: s[i].fluid_id, moles })),
        amounts(s.update(i, Fluid { fluid_id: s[i].fluid_id, moles })) == amounts(s).insert(
            s[i].fluid_id,
            moles,
        ),
{
    let t = s.update(i, Fluid { fluid_id: s[i].fluid_id, moles });
    assert forall|a: int, b: int| 0 <= a < b < t.len() implies t[a].fluid_id < t[b].fluid_id by {
        assert(t[a].fluid_id == s[a].fluid_id);
        assert(t[b].fluid_id == s[b].fluid_id);
    }
    lemma_amounts_ascending(s);
    lemma_amounts_ascending(t);
    let m = amounts(s).insert(s[i].fluid_id, moles);
    assert forall|k: usize| amounts(t).contains_key(k) <==> m.contains_key(k) by {
        if holds_fluid(t, k) {
            let j = choose|j: int| 0 <= j < t.len() && t[j].fluid_id == k;
            assert(s[j].fluid_id == t[j].fluid_id);
        }
        if holds_fluid(s, k) {
            let j = choose|j: int| 0 <= j < s.len() && s[j].fluid_id == k;
            assert(s[j].fluid_id == t[j].fluid_id);
        }
    }
    assert forall|k: usize| #[trigger] amounts(t).contains_key(k) implies amounts(t)[k] == m[k] by {
        let j = choose|j: int| 0 <= j < t.len() && t[j].fluid_id == k;
        if j != i {
            assert(s[j] == t[j]);
        }
    }
    assert(amounts(t) =~= m);
}

/// Nothing is held by an empty list.
pub proof fn lemma_amounts_empty<A>()
    ensures
        amounts(Seq::<Fluid<A>>::empty()) == Map::<usize, A>::empty(),
{
    assert(amounts(Seq::<Fluid<A>>::empty()) =~= Map::<usize, A>::empty());
}

/// Two fluid lists in ascending id order that hold the same amounts of the
/// same fluids are the same list: the fluids of a mixture, in order, are
/// determined by how much of each fluid it holds.
pub proof fn lemma_ascending_determined_by_amounts<A>(s: Seq<Fluid<A>>, t: Seq<Fluid<A>>)
    requires
        ids_ascending(s),
        ids_ascending(t),
        amounts(s) == amounts(t),
    ensures
        s == t,
    decreases s.len(),
{
    lemma_amounts_ascending(s);
    lemma_amounts_ascending(t);
    if s.len() == 0 {
        if t.len() > 0 {
            assert(amounts(t).contains_key(t[0].fluid_id));
        }
        assert(s =~= t);
    } else {
        assert(amounts(t).contains_key(s[0].fluid_id));
        assert(t.len() > 0);
        assert(amounts(s).contains_key(t[0].fluid_id));
        let i = choose|i: int| 0 <= i < t.len() && t[i].fluid_id == s[0].fluid_id;
        let j = choose|j: int| 0 <= j < s.len() && s[j].fluid_id == t[0].fluid_id;
        assert(t[0].fluid_id <= t[i].fluid_id);
        assert(s[0].fluid_id <= s[j].fluid_id);
        assert(s[0].fluid_id == t[0].fluid_id);
        assert(s[0] == t[0]);
        let s_rest = s.drop_first();
        let t_rest = t.drop_first();
        assert(s_rest.insert(0, s[0]) =~= s);
        assert(t_rest.insert(0, t[0]) =~= t);
        lemma_amounts_insert(s_rest, 0, s[0]);
        lemma_amounts_insert(t_rest, 0, t[0]);
        assert(amounts(s_rest) =~= amounts(s).remove(s[0].fluid_id));
        assert(amounts(t_rest) =~= amounts(t).remove(t[0].fluid_id));
        lemma_ascending_determined_by_amounts(s_rest, t_rest);
        assert(s =~= t);
    }
}

// ---------------------------------------------------------------------------
// Lemmas on combining amounts
// ---------------------------------------------------------------------------

/// Combining with nothing changes nothing.
pub proof fn lemma_combined_with_empty<A, F: Fn(A, A) -> A>(a: Map<usize, A>, plus: F)
    ensures
        combined(a, Map::<usize, A>::empty(), plus, a),
{
    assert(a.dom() =~= a.dom().union(Map::<usize, A>::empty().dom()));
}

/// One step of a merge: an id that neither side holds yet comes in with its amount.
pub proof fn lemma_combined_new_key<A, F: Fn(A, A) -> A>(
    a: Map<usize, A>,
    b: Map<usize, A>,
    plus: F,
    r: Map<usize, A>,
    key: usize,
    value: A,
)
    requires
        combined(a, b, plus, r),
        !r.contains_key(key),
    ensures
        combined(a, b.insert(key, value), plus, r.insert(key, value)),
{
    assert(!a.contains_key(key));
    assert(!b.contains_key(key));
    assert(r.insert(key, value).dom() =~= a.dom().union(b.insert(key, value).dom()));
    assert forall|k: usize| #[trigger] r.insert(key, value).contains_key(k) implies {
        let b2 = b.insert(key, value);
        let r2 = r.insert(key, value);
        &&& (a.contains_key(k) && b2.contains_key(k)) ==> plus.ensures((a[k], b2[k]), r2[k])
        &&& (a.contains_key(k) && !b2.contains_key(k)) ==> r2[k] == a[k]
        &&& (!a.contains_key(k) && b2.contains_key(k)) ==> r2[k] == b2[k]
    } by {
        if k != key {
            assert(r.contains_key(k));
        }
    }
}

/// One step of a merge: an id that only the first side holds so far gets the
/// sum that `plus` returned for its amount and the incoming amount.
pub proof fn lemma_combined_existing_key<A, F: Fn(A, A) -> A>(
    a: Map<usize, A>,
    b: Map<usize, A>,
    plus: F,
    r: Map<usize, A>,
    key: usize,
    value: A,
    sum: A,
)
    requires
        combined(a, b, plus, r),
        r.contains_key(key),
        !b.contains_key(key),
        plus.ensures((r[key], value), sum),
    ensures
        combined(a, b.insert(key, value), plus, r.insert(key, sum)),
{
    assert(a.contains_key(key));
    assert(r[key] == a[key]);
    assert(r.insert(key, sum).dom() =~= a.dom().union(b.insert(key, value).dom()));
    assert forall|k: usize| #[trigger] r.insert(key, sum).contains_key(k) implies {
        let b2 = b.insert(key, value);
        let r2 = r.insert(key, sum);
        &&& (a.contains_key(k) && b2.contains_key(k)) ==> plus.ensures((a[k], b2[k]), r2[k])
        &&& (a.contains_key(k) && !b2.contains_key(k)) ==> r2[k] == a[k]
        &&& (!a.contains_key(k) && b2.contains_key(k)) ==> r2[k] == b2[k]
    } by {
        if k != key {
            assert(r.contains_key(k));
        }
    }
}

/// `plus` gives one result for each pair of arguments, and the same result
/// for the arguments swapped.
pub open spec fn commutative_function<A, F: Fn(A, A) -> A>(plus: F) -> bool {
    &&& forall|x: A, y: A, r: A| #[trigger] plus.ensures((x, y), r) ==> plus.ensures((y, x), r)
    &&& forall|x: A, y: A, r1: A, r2: A|
        #[trigger] plus.ensures((x, y), r1) && #[trigger] plus.ensures((x, y), r2) ==> r1 == r2
}

/// Merging is commutative when adding is: merging `b` into `a` gives the same
/// fluids, in the same order, and the same energy as merging `a` into `b`.
pub proof fn lemma_merge_commutes<A, F: Fn(A, A) -> A>(
    a: Seq<Fluid<A>>,
    b: Seq<Fluid<A>>,
    a_energy: A,
    b_energy: A,
    plus: F,
    ab: Seq<Fluid<A>>,
    ab_energy: A,
    ba: Seq<Fluid<A>>,
    ba_energy: A,
)
    requires
        commutative_function(plus),
        ids_ascending(ab),
        ids_ascending(ba),
        combined(amounts(a), amounts(b), plus, amounts(ab)),
        combined(amounts(b), amounts(a), plus, amounts(ba)),
        plus.ensures((a_energy, b_energy), ab_energy),
        plus.ensures((b_energy, a_energy), ba_energy),
    ensures
        ab == ba,
        ab_energy == ba_energy,
{
    let r1 = amounts(ab);
    let r2 = amounts(ba);
    assert forall|k: usize| r1.contains_key(k) <==> r2.contains_key(k) by {
        assert(r1.dom().contains(k) <==> amounts(a).dom().union(amounts(b).dom()).contains(k));
        assert(r2.dom().contains(k) <==> amounts(b).dom().union(amounts(a).dom()).contains(k));
    }
    assert forall|k: usize| #[trigger] r1.contains_key(k) implies r1[k] == r2[k] by {
        assert(r2.contains_key(k));
        if amounts(a).contains_key(k) && amounts(b).contains_key(k) {
            assert(plus.ensures((amounts(a)[k], amounts(b)[k]), r1[k]));
            assert(plus.ensures((amounts(b)[k], amounts(a)[k]), r2[k]));
            assert(plus.ensures((amounts(a)[k], amounts(b)[k]), r2[k]));
        }
    }
    assert(r1 =~= r2);
    lemma_ascending_determined_by_amounts(ab, ba);
    assert(plus.ensures((a_energy, b_energy), ba_energy));
}

/// Merging an empty mixture into `a` changes nothing: the fluids of `a` stay
/// as they are, in the same order; and the energy stays as it is when adding
/// `zero` (the energy of the empty mixture) to an energy changes nothing.
pub proof fn lemma_merge_empty_into<A, F: Fn(A, A) -> A>(
    a: Seq<Fluid<A>>,
    a_energy: A,
    zero: A,
    plus: F,
    merged: Seq<Fluid<A>>,
    merged_energy: A,
)
    requires
        ids_ascending(a),
        ids_ascending(merged),
        combined(amounts(a), Map::<usize, A>::empty(), plus, amounts(merged)),
        plus.ensures((a_energy, zero), merged_energy),
    ensures
        merged == a,
        (forall|x: A, r: A| #[trigger] plus.ensures((x, zero), r) ==> r == x) ==> merged_energy
            == a_energy,
{
    let r = amounts(merged);
    assert forall|k: usize| r.contains_key(k) <==> amounts(a).contains_key(k) by {
        assert(r.dom().contains(k) <==> amounts(a).dom().union(
            Map::<usize, A>::empty().dom(),
        ).contains(k));
    }
    assert forall|k: usize| #[trigger] r.contains_key(k) implies r[k] == amounts(a)[k] by {
        assert(amounts(a).contains_key(k));
    }
    assert(r =~= amounts(a));
    lemma_ascending_determined_by_amounts(merged, a);
}

/// Merging `a` into an empty mixture gives the fluids of `a`, in the same
/// order; and the energy of `a` when adding an energy to `zero` (the energy
/// of the empty mixture) gives that energy.
pub proof fn lemma_merge_into_empty<A, F: Fn(A, A) -> A>(
    a: Seq<Fluid<A>>,
    a_energy: A,
    zero: A,
    plus: F,
    merged: Seq<Fluid<A>>,
    merged_energy: A,
)
    requires
        ids_ascending(a),
        ids_ascending(merged),
        combined(Map::<usize, A>::empty(), amounts(a), plus, amounts(merged)),
        plus.ensures((zero, a_energy), merged_energy),
    ensures
        merged == a,
        (forall|x: A, r: A| #[trigger] plus.ensures((zero, x), r) ==> r == x) ==> merged_energy
            == a_energy,
{
    let r = amounts(merged);
    assert forall|k: usize| r.contains_key(k) <==> amounts(a).contains_key(k) by {
        assert(r.dom().contains(k) <==> Map::<usize, A>::empty().dom().union(
            amounts(a).dom(),
        ).contains(k));
    }
    assert forall|k: usize| #[trigger] r.contains_key(k) implies r[k] == amounts(a)[k] by {
        assert(amounts(a).contains_key(k));
    }
    assert(r =~= amounts(a));
    lemma_ascending_determined_by_amounts(merged, a);
}

// ---------------------------------------------------------------------------
// The mixture
// ---------------------------------------------------------------------------

/// Where `fluid_id` stands in `fluids`: `Ok` with its index, or `Err` with
/// the index at which it would have to be inserted to keep the ids ascending.
fn find_fluid<A>(fluids: &Vec<Fluid<A>>, fluid_id: usize) -> (result: Result<usize, usize>)
    requires
        ids_ascending(fluids@),
    ensures
        match result {
            Ok(i) => i < fluids@.len() && fluids@[i as int].fluid_id == fluid_id,
            Err(p) => p <= fluids@.len() && (forall|k: int|
                0 <= k < p ==> #[trigger] fluids@[k].fluid_id < fluid_id) && (forall|k: int|
                p <= k < fluids@.len() ==> #[trigger] fluids@[k].fluid_id > fluid_id),
        },
{
    let mut low: usize = 0;
    let mut high: usize = fluids.len();
    while low < high
        invariant
            0 <= low <= high <= fluids@.len(),
            ids_ascending(fluids@),
            forall|k: int| 0 <= k < low ==> #[trigger] fluids@[k].fluid_id < fluid_id,
            forall|k: int| high <= k < fluids@.len() ==> #[trigger] fluids@[k].fluid_id > fluid_id,
        decreases high - low,
    {
        let mid = low + (high - low) / 2;
        let probe = fluids[mid].fluid_id;
        if probe < fluid_id {
            low = mid + 1;
        } else if probe > fluid_id {
            high = mid;
        } else {
            return Ok(mid);
        }
    }
    Err(low)
}

impl<A> Mixture<A> {
    #[verifier::type_invariant]
    spec fn fluids_ordered(self) -> bool {
        ids_ascending(self.fluids@)
    }
}

impl<A: Copy> Mixture<A> {

    /// The fluids of the mixture, in ascending order of id.
    pub closed spec fn contents(&self) -> Seq<Fluid<A>> {
        self.fluids@
    }

    /// The energy of the mixture.
    pub closed spec fn stored_energy(&self) -> A {
        self.energy
    }

    /// A mixture that holds no fluid and the given energy.
    pub fn empty(energy: A) -> (mixture: Self)
        ensures
            mixture.contents() == Seq::<Fluid<A>>::empty(),
            amounts(mixture.contents()) == Map::<usize, A>::empty(),
            mixture.stored_energy() == energy,
    {
        proof {
            lemma_amounts_empty::<A>();
        }
        Mixture { fluids: Vec::new(), energy }
    }

    /// The fluids of the mixture, in ascending order of id.
    pub fn fluids(&self) -> (fluids: &[Fluid<A>])
        ensures
            fluids@ == self.contents(),
            ids_ascending(fluids@),
    {
        proof {
            use_type_invariant(self);
        }
        self.fluids.as_slice()
    }

    /// The energy of the mixture.
    pub fn energy(&self) -> (energy: A)
        ensures
            energy == self.stored_energy(),
    {
        self.energy
    }

    /// Add an amount of a fluid: it is added to the fluid of the same id if
    /// the mixture holds one, and inserted in id order otherwise.
    pub fn add_fluid<F: Fn(A, A) -> A>(&mut self, fluid: Fluid<A>, plus: &F)
        requires
            forall|x: A, y: A| plus.requires((x, y)),
        ensures
            ids_ascending(final(self).contents()),
            combined(
                amounts(old(self).contents()),
                map![fluid.fluid_id => fluid.moles],
                *plus,
                amounts(final(self).contents()),
            ),
            final(self).stored_energy() == old(self).stored_energy(),
    {
        proof {
            use_type_invariant(&*self);
            lemma_amounts_ascending(self.fluids@);
            lemma_combined_with_empty(amounts(self.fluids@), *plus);
        }
        let ghost before = self.fluids@;
        let ghost single = map![fluid.fluid_id => fluid.moles];
        assert(Map::<usize, A>::empty().insert(fluid.fluid_id, fluid.moles) == single);
        let mut fluids: Vec<Fluid<A>> = Vec::new();
        std::mem::swap(&mut fluids, &mut self.fluids);
        match find_fluid(&fluids, fluid.fluid_id) {
            Ok(index) => {
                let sum = plus(fluids[index].moles, fluid.moles);
                let ghost s = fluids@;
                fluids.set(index, Fluid { fluid_id: fluid.fluid_id, moles: sum });
                proof {
                    lemma_amounts_update(s, index as int, sum);
                    assert(fluids@ == s.update(
                        index as int,
                        Fluid { fluid_id: s[index as int].fluid_id, moles: sum },
                    ));
                    lemma_combined_existing_key(
                        amounts(before),
                        Map::<usize, A>::empty(),
                        *plus,
                        amounts(before),
                        fluid.fluid_id,
                        fluid.moles,
                        sum,
                    );
                }
            },
            Err(position) => {
                let ghost s = fluids@;
                fluids.insert(position, fluid);
                proof {
                    assert forall|i: int, j: int| 0 <= i < j < fluids@.len() implies fluids@[i].fluid_id
                        < fluids@[j].fluid_id by {
                        if j < position {
                        } else if j == position {
                            assert(fluids@[i] == s[i]);
                        } else if i > position {
                            assert(fluids@[i] == s[i - 1]);
                            assert(fluids@[j] == s[j - 1]);
                        } else if i == position {
                            assert(fluids@[j] == s[j - 1]);
                        } else {
                            assert(fluids@[i] == s[i]);
                            assert(fluids@[j] == s[j - 1]);
                        }
                    }
                    lemma_amounts_insert(s, position as int, fluid);
                    lemma_combined_new_key(
                        amounts(before),
                        Map::<usize, A>::empty(),
                        *plus,
                        amounts(before),
                        fluid.fluid_id,
                        fluid.moles,
                    );
                }
            },
        }
        self.fluids = fluids;
    }
}


impl<A: Copy> Mixture<A> {
    /// Add all fluids and the energy of another mixture to this one.
    ///
    /// The two ordered lists of fluids are merged: a fluid that both hold
    /// gets the sum of both amounts, every other fluid keeps its amount, and
    /// the ids stay in ascending order.
    pub fn add_mixture<F: Fn(A, A) -> A>(&mut self, mixture: Self, plus: &F)
        requires
            forall|x: A, y: A| plus.requires((x, y)),
        ensures
            ids_ascending(final(self).contents()),
            combined(
                amounts(old(self).contents()),
                amounts(mixture.contents()),
                *plus,
                amounts(final(self).contents()),
            ),
            plus.ensures(
                (old(self).stored_energy(), mixture.stored_energy()),
                final(self).stored_energy(),
            ),
    {
        proof {
            use_type_invariant(&*self);
            use_type_invariant(&mixture);
        }
        let added = mixture.fluids;
        let added_energy = mixture.energy;
        let mut fluids: Vec<Fluid<A>> = Vec::new();
        std::mem::swap(&mut fluids, &mut self.fluids);
        let ghost before = fluids@;
        proof {
            lemma_amounts_empty::<A>();
            assert(added@.take(0) =~= Seq::<Fluid<A>>::empty());
            lemma_combined_with_empty(amounts(before), *plus);
        }
        let mut probe_index: usize = 0;
        let n = added.len();
        for j in 0..n
            invariant
                n == added@.len(),
                forall|x: A, y: A| plus.requires((x, y)),
                ids_ascending(added@),
                ids_ascending(fluids@),
                probe_index <= fluids@.len(),
                j == 0 ==> probe_index == 0,
                j > 0 ==> probe_index >= 1 && fluids@[probe_index - 1].fluid_id == added@[j
                    - 1].fluid_id,
                combined(amounts(before), amounts(added@.take(j as int)), *plus, amounts(fluids@)),
        {
            let fluid = added[j];
            let ghost start = fluids@;
            let ghost taken = added@.take(j as int);
            proof {
                assert(added@.take(j as int).insert(j as int, fluid) =~= added@.take(j + 1));
                lemma_amounts_insert(taken, j as int, fluid);
                lemma_amounts_ascending(start);
                if j > 0 {
                    assert(added@[j - 1].fluid_id < fluid.fluid_id);
                }
            }
            loop
                invariant_except_break
                    fluids@ == start,
                    probe_index <= fluids@.len(),
                    forall|k: int| 0 <= k < probe_index ==> #[trigger] fluids@[k].fluid_id
                        < fluid.fluid_id,
                invariant
                    forall|x: A, y: A| plus.requires((x, y)),
                    ids_ascending(start),
                    fluid == added@[j as int],
                    !amounts(taken).contains_key(fluid.fluid_id),
                    amounts(added@.take(j + 1)) == amounts(taken).insert(fluid.fluid_id, fluid.moles),
                    combined(amounts(before), amounts(taken), *plus, amounts(start)),
                ensures
                    ids_ascending(fluids@),
                    1 <= probe_index <= fluids@.len(),
                    fluids@[probe_index - 1].fluid_id == fluid.fluid_id,
                    combined(amounts(before), amounts(added@.take(j + 1)), *plus, amounts(fluids@)),
                decreases fluids@.len() - probe_index,
            {
                if probe_index < fluids.len() {
                    let probed_id = fluids[probe_index].fluid_id;
                    if fluid.fluid_id < probed_id {
                        // The added fluid comes before the probed one: insert it here.
                        fluids.insert(probe_index, fluid);
                        proof {
                            assert forall|a: int, b: int| 0 <= a < b < fluids@.len() implies fluids@[a].fluid_id
                                < fluids@[b].fluid_id by {
                                if b < probe_index {
                                } else if b == probe_index {
                                    assert(fluids@[a] == start[a]);
                                } else if a > probe_index {
                                    assert(fluids@[a] == start[a - 1]);
                                    assert(fluids@[b] == start[b - 1]);
                                } else if a == probe_index {
                                    assert(fluids@[b] == start[b - 1]);
                                    assert(start[probe_index as int].fluid_id <= start[b - 1].fluid_id);
                                } else {
                                    assert(fluids@[a] == start[a]);
                                    assert(fluids@[b] == start[b - 1]);
                                }
                            }
                            lemma_amounts_insert(start, probe_index as int, fluid);
                            lemma_combined_new_key(
                                amounts(before),
                                amounts(taken),
                                *plus,
                                amounts(start),
                                fluid.fluid_id,
                                fluid.moles,
                            );
                        }
                        probe_index += 1;
                        break ;
                    } else if fluid.fluid_id == probed_id {
                        // Both hold this fluid: add the amounts.
                        let sum = plus(fluids[probe_index].moles, fluid.moles);
                        fluids.set(probe_index, Fluid { fluid_id: fluid.fluid_id, moles: sum });
                        proof {
                            lemma_amounts_update(start, probe_index as int, sum);
                            assert(fluids@ == start.update(
                                probe_index as int,
                                Fluid { fluid_id: start[probe_index as int].fluid_id, moles: sum },
                            ));
                            lemma_combined_existing_key(
                                amounts(before),
                                amounts(taken),
                                *plus,
                                amounts(start),
                                fluid.fluid_id,
                                fluid.moles,
                                sum,
                            );
                        }
                        probe_index += 1;
                        break ;
                    } else {
                        // The added fluid comes after the probed one: look further.
                        probe_index += 1;
                        continue ;
                    }
                }
                // Every fluid held so far comes before the added one.
                fluids.push(fluid);
                proof {
                    assert(start.insert(start.len() as int, fluid) =~= fluids@);
                    assert forall|a: int, b: int| 0 <= a < b < fluids@.len() implies fluids@[a].fluid_id
                        < fluids@[b].fluid_id by {
                        if b < start.len() {
                            assert(fluids@[a] == start[a]);
                            assert(fluids@[b] == start[b]);
                        } else {
                            assert(fluids@[a] == start[a]);
                        }
                    }
                    lemma_amounts_insert(start, start.len() as int, fluid);
                    lemma_combined_new_key(
                        amounts(before),
                        amounts(taken),
                        *plus,
                        amounts(start),
                        fluid.fluid_id,
                        fluid.moles,
                    );
                }
                // The probe moves past the fluid just pushed.
                probe_index = fluids.len();
                break ;
            }
        }
        proof {
            assert(added@.take(n as int) =~= added@);
        }
        self.fluids = fluids;
        self.energy = plus(self.energy, added_energy);
    }
}


/// Every fluid of `s` has an id below `count`.
pub open spec fn all_ids_below<A>(s: Seq<Fluid<A>>, count: nat) -> bool {
    forall|i: int| 0 <= i < s.len() ==> #[trigger] s[i].fluid_id < count
}

/// `q` is the first entry of `s` whose id is not below `count`.
pub open spec fn first_id_not_below<A>(s: Seq<Fluid<A>>, count: nat, q: int) -> bool {
    &&& 0 <= q < s.len()
    &&& s[q].fluid_id >= count
    &&& all_ids_below(s.take(q), count)
}

/// What is left of `fluid` after a split with the given outcome: the kept
/// amount, or the fluid unchanged where nothing is extracted.
pub open spec fn kept_part<A>(fluid: Fluid<A>, outcome: Option<(A, A)>) -> Fluid<A> {
    match outcome {
        Some((kept, _)) => Fluid { fluid_id: fluid.fluid_id, moles: kept },
        None => fluid,
    }
}

/// The fluids extracted from the first `outcomes.len()` entries of `fluids`,
/// in their order: one entry for each outcome that extracts something.
pub open spec fn extracted_part<A>(fluids: Seq<Fluid<A>>, outcomes: Seq<Option<(A, A)>>) -> Seq<
    Fluid<A>,
>
    decreases outcomes.len(),
{
    if outcomes.len() == 0 {
        Seq::empty()
    } else {
        let rest = extracted_part(fluids, outcomes.drop_last());
        match outcomes.last() {
            Some((_, extracted)) => rest.push(
                Fluid { fluid_id: fluids[outcomes.len() - 1].fluid_id, moles: extracted },
            ),
            None => rest,
        }
    }
}

/// The first `outcomes.len()` fluids of `before` were split by `split` with
/// the given outcomes, each given the properties that `properties` stores
/// under its id, and `after` holds what was kept of them followed by the
/// untouched rest of `before`.
pub open spec fn split_steps<A, P, F: Fn(&Fluid<A>, &P) -> Option<(A, A)>>(
    before: Seq<Fluid<A>>,
    after: Seq<Fluid<A>>,
    properties: Seq<P>,
    split: F,
    outcomes: Seq<Option<(A, A)>>,
) -> bool {
    &&& outcomes.len() <= before.len()
    &&& after.len() == before.len()
    &&& forall|i: int|
        0 <= i < outcomes.len() ==> {
            &&& before[i].fluid_id < properties.len()
            &&& split.ensures((&before[i], &properties[before[i].fluid_id as int]), #[trigger] outcomes[i])
            &&& after[i] == kept_part(before[i], outcomes[i])
        }
    &&& forall|i: int| outcomes.len() <= i < before.len() ==> #[trigger] after[i] == before[i]
}

/// How one split fluid adds to the running weights: not at all when nothing
/// is extracted; otherwise the weight that `weigh` gives for the kept part is
/// added to the kept weight, and that for the extracted part to the
/// extracted weight, each with `plus`.
pub open spec fn weight_step<A, P, W: Fn(&Fluid<A>, &P) -> A, F: Fn(A, A) -> A>(
    fluid: Fluid<A>,
    outcome: Option<(A, A)>,
    properties: P,
    weigh: W,
    plus: F,
    kept_before: A,
    kept_after: A,
    extracted_before: A,
    extracted_after: A,
) -> bool {
    match outcome {
        None => kept_after == kept_before && extracted_after == extracted_before,
        Some((kept, extracted)) => exists|kept_part: A, extracted_part: A|
            {
                &&& weigh.ensures(
                    (&Fluid { fluid_id: fluid.fluid_id, moles: kept }, &properties),
                    kept_part,
                )
                &&& plus.ensures((kept_before, kept_part), kept_after)
                &&& weigh.ensures(
                    (&Fluid { fluid_id: fluid.fluid_id, moles: extracted }, &properties),
                    extracted_part,
                )
                &&& plus.ensures((extracted_before, extracted_part), extracted_after)
            },
    }
}

/// The running kept and extracted weights over the split fluids, both
/// starting from `zero`.
pub open spec fn weight_steps<A, P, W: Fn(&Fluid<A>, &P) -> A, F: Fn(A, A) -> A>(
    before: Seq<Fluid<A>>,
    outcomes: Seq<Option<(A, A)>>,
    properties: Seq<P>,
    weigh: W,
    plus: F,
    zero: A,
    kept: Seq<A>,
    extracted: Seq<A>,
) -> bool {
    &&& kept.len() == outcomes.len() + 1
    &&& extracted.len() == outcomes.len() + 1
    &&& kept[0] == zero
    &&& extracted[0] == zero
    &&& forall|i: int|
        0 <= i < outcomes.len() ==> #[trigger] weight_step(
            before[i],
            outcomes[i],
            properties[before[i].fluid_id as int],
            weigh,
            plus,
            kept[i],
            kept[i + 1],
            extracted[i],
            extracted[i + 1],
        )
}

/// `kept_weight` and `extracted_weight` are the total weights of the kept and
/// the extracted parts of the fluids split with the given outcomes.
pub open spec fn weights_accumulated<A, P, W: Fn(&Fluid<A>, &P) -> A, F: Fn(A, A) -> A>(
    before: Seq<Fluid<A>>,
    outcomes: Seq<Option<(A, A)>>,
    properties: Seq<P>,
    weigh: W,
    plus: F,
    zero: A,
    kept_weight: A,
    extracted_weight: A,
) -> bool {
    exists|kept: Seq<A>, extracted: Seq<A>|
        {
            &&& weight_steps(before, outcomes, properties, weigh, plus, zero, kept, extracted)
            &&& kept[outcomes.len() as int] == kept_weight
            &&& extracted[outcomes.len() as int] == extracted_weight
        }
}

/// A split changes amounts only: every entry keeps its fluid id.
pub proof fn lemma_split_keeps_ids<A, P, F: Fn(&Fluid<A>, &P) -> Option<(A, A)>>(
    before: Seq<Fluid<A>>,
    after: Seq<Fluid<A>>,
    properties: Seq<P>,
    split: F,
    outcomes: Seq<Option<(A, A)>>,
)
    requires
        split_steps(before, after, properties, split, outcomes),
    ensures
        forall|i: int| 0 <= i < before.len() ==> #[trigger] after[i].fluid_id == before[i].fluid_id,
        ids_ascending(before) ==> ids_ascending(after),
{
    assert forall|i: int| 0 <= i < before.len() implies #[trigger] after[i].fluid_id
        == before[i].fluid_id by {
        if i < outcomes.len() {
            assert(after[i] == kept_part(before[i], outcomes[i]));
        }
    }
}

/// Extracted fluids keep their order: their ids ascend, and none comes after
/// the last fluid that was split.
pub proof fn lemma_extracted_part_ids<A>(fluids: Seq<Fluid<A>>, outcomes: Seq<Option<(A, A)>>)
    requires
        outcomes.len() <= fluids.len(),
        ids_ascending(fluids),
    ensures
        ids_ascending(extracted_part(fluids, outcomes)),
        outcomes.len() > 0 ==> forall|k: int|
            0 <= k < extracted_part(fluids, outcomes).len() ==> #[trigger] extracted_part(
                fluids,
                outcomes,
            )[k].fluid_id <= fluids[outcomes.len() - 1].fluid_id,
    decreases outcomes.len(),
{
    if outcomes.len() > 0 {
        let prefix = outcomes.drop_last();
        lemma_extracted_part_ids(fluids, prefix);
        if prefix.len() > 0 {
            assert(fluids[prefix.len() - 1].fluid_id < fluids[outcomes.len() - 1].fluid_id);
        }
    }
}

/// The amounts of the extracted fluids: for each split fluid, the extracted
/// amount under its id when something was extracted, and nothing otherwise.
pub proof fn lemma_extracted_part_amounts<A>(fluids: Seq<Fluid<A>>, outcomes: Seq<Option<(A, A)>>)
    requires
        outcomes.len() <= fluids.len(),
        ids_ascending(fluids),
    ensures
        forall|i: int|
            0 <= i < outcomes.len() ==> ((#[trigger] outcomes[i]) is Some ==> amounts(
                extracted_part(fluids, outcomes),
            ).contains_key(fluids[i].fluid_id) && amounts(extracted_part(fluids, outcomes))[fluids[i].fluid_id]
                == outcomes[i].unwrap().1),
        forall|i: int|
            0 <= i < outcomes.len() ==> ((#[trigger] outcomes[i]) is None ==> !amounts(
                extracted_part(fluids, outcomes),
            ).contains_key(fluids[i].fluid_id)),
        forall|k: usize|
            #[trigger] amounts(extracted_part(fluids, outcomes)).contains_key(k) ==> exists|i: int|
                0 <= i < outcomes.len() && fluids[i].fluid_id == k && outcomes[i] is Some,
    decreases outcomes.len(),
{
    let ext = extracted_part(fluids, outcomes);
    if outcomes.len() == 0 {
        lemma_amounts_empty::<A>();
        assert(ext == Seq::<Fluid<A>>::empty());
    } else {
        let n = outcomes.len() - 1;
        let prefix = outcomes.drop_last();
        let pe = extracted_part(fluids, prefix);
        lemma_extracted_part_amounts(fluids, prefix);
        lemma_extracted_part_ids(fluids, prefix);
        lemma_extracted_part_ids(fluids, outcomes);
        lemma_amounts_ascending(pe);
        let id = fluids[n].fluid_id;
        assert forall|k: usize| amounts(pe).contains_key(k) implies k < id by {
            let i = choose|i: int| 0 <= i < prefix.len() && fluids[i].fluid_id == k && prefix[i] is Some;
            assert(fluids[i].fluid_id < fluids[n].fluid_id);
        }
        match outcomes.last() {
            Some((_, extracted)) => {
                let f = Fluid { fluid_id: id, moles: extracted };
                assert(ext == pe.push(f));
                assert(pe.insert(pe.len() as int, f) =~= pe.push(f));
                lemma_amounts_insert(pe, pe.len() as int, f);
                assert forall|i: int| 0 <= i < outcomes.len() && (#[trigger] outcomes[i]) is Some
                    implies amounts(ext).contains_key(fluids[i].fluid_id) && amounts(ext)[fluids[i].fluid_id]
                    == outcomes[i].unwrap().1 by {
                    if i < n {
                        assert(prefix[i] == outcomes[i]);
                        assert(fluids[i].fluid_id < id);
                    }
                }
                assert forall|i: int| 0 <= i < outcomes.len() && (#[trigger] outcomes[i]) is None
                    implies !amounts(ext).contains_key(fluids[i].fluid_id) by {
                    if i < n {
                        assert(prefix[i] == outcomes[i]);
                        assert(fluids[i].fluid_id < id);
                    }
                }
                assert forall|k: usize| #[trigger] amounts(ext).contains_key(k) implies exists|i: int|
                    0 <= i < outcomes.len() && fluids[i].fluid_id == k && outcomes[i] is Some by {
                    if k != id {
                        let i = choose|i: int|
                            0 <= i < prefix.len() && fluids[i].fluid_id == k && prefix[i] is Some;
                        assert(prefix[i] == outcomes[i]);
                    } else {
                        assert(outcomes[n] is Some);
                    }
                }
            },
            None => {
                assert(ext == pe);
                assert forall|i: int| 0 <= i < outcomes.len() && (#[trigger] outcomes[i]) is Some
                    implies amounts(ext).contains_key(fluids[i].fluid_id) && amounts(ext)[fluids[i].fluid_id]
                    == outcomes[i].unwrap().1 by {
                    if i < n {
                        assert(prefix[i] == outcomes[i]);
                    }
                }
                assert forall|i: int| 0 <= i < outcomes.len() && (#[trigger] outcomes[i]) is None
                    implies !amounts(ext).contains_key(fluids[i].fluid_id) by {
                    if i < n {
                        assert(prefix[i] == outcomes[i]);
                    }
                }
                assert forall|k: usize| #[trigger] amounts(ext).contains_key(k) implies exists|i: int|
                    0 <= i < outcomes.len() && fluids[i].fluid_id == k && outcomes[i] is Some by {
                    let i = choose|i: int|
                        0 <= i < prefix.len() && fluids[i].fluid_id == k && prefix[i] is Some;
                    assert(prefix[i] == outcomes[i]);
                }
            },
        }
    }
}

/// Extraction moves fluid without creating or losing any: adding the
/// extracted fluids back to what was kept gives the amounts held before, as
/// long as adding each kept part to its extracted part gives the whole.
pub proof fn lemma_extract_then_merge_restores<A, P, F, G>(
    before: Seq<Fluid<A>>,
    after: Seq<Fluid<A>>,
    properties: Seq<P>,
    split: F,
    outcomes: Seq<Option<(A, A)>>,
    plus: G,
    merged: Map<usize, A>,
) where
    F: Fn(&Fluid<A>, &P) -> Option<(A, A)>,
    G: Fn(A, A) -> A,

    requires
        ids_ascending(before),
        outcomes.len() == before.len(),
        split_steps(before, after, properties, split, outcomes),
        combined(amounts(after), amounts(extracted_part(before, outcomes)), plus, merged),
        forall|i: int, r: A|
            #![trigger plus.ensures((outcomes[i].unwrap().0, outcomes[i].unwrap().1), r)]
            0 <= i < outcomes.len() && outcomes[i] is Some && plus.ensures(
                (outcomes[i].unwrap().0, outcomes[i].unwrap().1),
                r,
            ) ==> r == before[i].moles,
    ensures
        merged == amounts(before),
{
    let ext = extracted_part(before, outcomes);
    lemma_split_keeps_ids(before, after, properties, split, outcomes);
    lemma_extracted_part_amounts(before, outcomes);
    lemma_amounts_ascending(before);
    lemma_amounts_ascending(after);
    assert forall|k: usize| merged.contains_key(k) <==> amounts(before).contains_key(k) by {
        if amounts(after).contains_key(k) {
            let i = choose|i: int| 0 <= i < after.len() && after[i].fluid_id == k;
            assert(before[i].fluid_id == k);
        }
        if amounts(ext).contains_key(k) {
            let i = choose|i: int| 0 <= i < outcomes.len() && before[i].fluid_id == k && outcomes[i] is Some;
        }
        if amounts(before).contains_key(k) {
            let i = choose|i: int| 0 <= i < before.len() && before[i].fluid_id == k;
            assert(after[i].fluid_id == k);
        }
    }
    assert forall|k: usize| #[trigger] merged.contains_key(k) implies merged[k] == amounts(before)[k] by {
        let i = choose|i: int| 0 <= i < before.len() && before[i].fluid_id == k;
        assert(after[i].fluid_id == k);
        assert(after[i] == kept_part(before[i], outcomes[i]));
        assert(amounts(after)[k] == after[i].moles);
        if outcomes[i] is Some {
            assert(amounts(ext).contains_key(k));
        } else {
            assert(!amounts(ext).contains_key(k));
        }
    }
    assert(merged =~= amounts(before));
}

impl<A: Copy> Mixture<A> {
    /// A mixture of the given fluids and energy; fluids of the same id are
    /// added together, in the order given.
    pub fn new<F: Fn(A, A) -> A>(fluids: Vec<Fluid<A>>, energy: A, plus: &F) -> (mixture: Self)
        requires
            forall|x: A, y: A| plus.requires((x, y)),
        ensures
            ids_ascending(mixture.contents()),
            accumulated(fluids@, *plus, amounts(mixture.contents())),
            mixture.stored_energy() == energy,
    {
        let mut mixture = Mixture { fluids: Vec::new(), energy };
        let ghost mut steps: Seq<Map<usize, A>> = seq![Map::<usize, A>::empty()];
        proof {
            lemma_amounts_empty::<A>();
        }
        let n = fluids.len();
        for i in 0..n
            invariant
                n == fluids@.len(),
                forall|x: A, y: A| plus.requires((x, y)),
                mixture.stored_energy() == energy,
                steps.len() == i + 1,
                steps[0] == Map::<usize, A>::empty(),
                forall|k: int|
                    0 <= k < i ==> combined(
                        #[trigger] steps[k],
                        map![fluids@[k].fluid_id => fluids@[k].moles],
                        *plus,
                        steps[k + 1],
                    ),
                steps[i as int] == amounts(mixture.contents()),
        {
            let ghost previous = amounts(mixture.contents());
            mixture.add_fluid(fluids[i], plus);
            proof {
                steps = steps.push(amounts(mixture.contents()));
                assert(steps[i as int] == previous);
            }
        }
        proof {
            use_type_invariant(&mixture);
            assert(steps[n as int] == amounts(mixture.contents()));
        }
        mixture
    }

    /// Add energy to the mixture.
    pub fn add_energy<F: Fn(A, A) -> A>(&mut self, energy: A, plus: &F)
        requires
            forall|x: A, y: A| plus.requires((x, y)),
        ensures
            plus.ensures((old(self).stored_energy(), energy), final(self).stored_energy()),
            final(self).contents() == old(self).contents(),
    {
        proof {
            use_type_invariant(&*self);
        }
        self.energy = plus(self.energy, energy);
    }

    /// The properties of each fluid of the mixture, in the mixture's order,
    /// or the error for the first fluid whose id the collection does not hold.
    pub fn lookup_properties<'a, P>(&self, collection: &'a FluidCollection<P>) -> (result: Result<
        Vec<&'a P>,
        InvalidFluidId,
    >)
        ensures
            result is Ok <==> all_ids_below(self.contents(), collection@.len()),
            match result {
                Ok(properties) => properties@.len() == self.contents().len() && forall|i: int|
                    0 <= i < properties@.len() ==> *#[trigger] properties@[i]
                        == collection@[self.contents()[i].fluid_id as int],
                Err(error) => exists|q: int|
                    first_id_not_below(self.contents(), collection@.len(), q) && error
                        == InvalidFluidId(self.contents()[q].fluid_id, collection@.len() as usize),
            },
    {
        let mut properties: Vec<&'a P> = Vec::new();
        let n = self.fluids.len();
        for i in 0..n
            invariant
                n == self.contents().len(),
                properties@.len() == i,
                all_ids_below(self.contents().take(i as int), collection@.len()),
                forall|k: int|
                    0 <= k < i ==> *#[trigger] properties@[k] == collection@[self.contents()[
                        k
                    ].fluid_id as int],
        {
            let fluid_id = self.fluids[i].fluid_id;
            match collection.get_properties(fluid_id) {
                Ok(found) => {
                    properties.push(found);
                    proof {
                        assert forall|k: int| 0 <= k < i + 1 implies #[trigger] self.contents().take(
                            i + 1,
                        )[k].fluid_id < collection@.len() by {
                            if k < i {
                                assert(self.contents().take(i as int)[k] == self.contents()[k]);
                            }
                        }
                    }
                },
                Err(error) => {
                    proof {
                        assert(first_id_not_below(self.contents(), collection@.len(), i as int));
                        assert(!all_ids_below(self.contents(), collection@.len()));
                    }
                    return Err(error);
                },
            }
        }
        proof {
            assert(self.contents().take(n as int) =~= self.contents());
        }
        Ok(properties)
    }

    /// Selectively extract fluids and energy from the mixture.
    ///
    /// Each fluid, in order, is handed with its properties to `split`, which
    /// returns `None` to leave it alone, or the amount to keep and the amount
    /// to extract. The extracted fluids form a new mixture, in the same order.
    ///
    /// For each fluid that is split, `weigh` gives the weight (such as the
    /// heat capacity) of the part kept and of the part extracted; starting
    /// from `zero`, `plus` adds up the kept weights and the extracted weights.
    /// At the end `share` divides the energy of the mixture, given the two
    /// total weights, into the energy kept and the energy of the extracted
    /// mixture.
    ///
    /// If an error is returned the mixture may still have had some fluids
    /// removed: those before the first fluid whose id the collection does not
    /// hold; its energy is unchanged.
    pub fn extract_fluids<P, F, W, G, S>(
        &mut self,
        collection: &FluidCollection<P>,
        split: F,
        weigh: W,
        zero: A,
        share: G,
        plus: &S,
    ) -> (result: Result<Self, InvalidFluidId>) where
        F: Fn(&Fluid<A>, &P) -> Option<(A, A)>,
        W: Fn(&Fluid<A>, &P) -> A,
        G: Fn(A, A, A) -> (A, A),
        S: Fn(A, A) -> A,

        requires
            forall|f: &Fluid<A>, p: &P| split.requires((f, p)),
            forall|f: &Fluid<A>, p: &P| weigh.requires((f, p)),
            forall|e: A, k: A, x: A| share.requires((e, k, x)),
            forall|x: A, y: A| plus.requires((x, y)),
        ensures
            ids_ascending(final(self).contents()),
            result is Ok <==> all_ids_below(old(self).contents(), collection@.len()),
            result matches Ok(extracted) ==> ids_ascending(extracted.contents()),
            match result {
                Ok(extracted) => exists|
                    outcomes: Seq<Option<(A, A)>>,
                    kept_weight: A,
                    extracted_weight: A,
                |
                    {
                        &&& outcomes.len() == old(self).contents().len()
                        &&& split_steps(
                            old(self).contents(),
                            final(self).contents(),
                            collection@,
                            split,
                            outcomes,
                        )
                        &&& extracted.contents() == extracted_part(old(self).contents(), outcomes)
                        &&& weights_accumulated(
                            old(self).contents(),
                            outcomes,
                            collection@,
                            weigh,
                            *plus,
                            zero,
                            kept_weight,
                            extracted_weight,
                        )
                        &&& share.ensures(
                            (old(self).stored_energy(), kept_weight, extracted_weight),
                            (final(self).stored_energy(), extracted.stored_energy()),
                        )
                    },
                Err(error) => exists|q: int|
                    {
                        &&& first_id_not_below(old(self).contents(), collection@.len(), q)
                        &&& error == InvalidFluidId(
                            old(self).contents()[q].fluid_id,
                            collection@.len() as usize,
                        )
                        &&& final(self).stored_energy() == old(self).stored_energy()
                        &&& exists|outcomes: Seq<Option<(A, A)>>|
                            outcomes.len() == q && split_steps(
                                old(self).contents(),
                                final(self).contents(),
                                collection@,
                                split,
                                outcomes,
                            )
                    },
            },
    {
        proof {
            use_type_invariant(&*self);
        }
        let mut fluids: Vec<Fluid<A>> = Vec::new();
        std::mem::swap(&mut fluids, &mut self.fluids);
        let ghost before = fluids@;
        let mut extracted: Vec<Fluid<A>> = Vec::new();
        let ghost mut outcomes: Seq<Option<(A, A)>> = Seq::empty();
        // Joules per Kelvin, say: the weights of what is kept and what is extracted.
        let mut kept_weight = zero;
        let mut extracted_weight = zero;
        let ghost mut kept_weights: Seq<A> = seq![zero];
        let ghost mut extracted_weights: Seq<A> = seq![zero];
        let n = fluids.len();
        for i in 0..n
            invariant
                n == before.len(),
                ids_ascending(before),
                self.energy == old(self).energy,
                self.fluids@ == Seq::<Fluid<A>>::empty(),
                before == old(self).contents(),
                forall|f: &Fluid<A>, p: &P| split.requires((f, p)),
                forall|f: &Fluid<A>, p: &P| weigh.requires((f, p)),
                forall|x: A, y: A| plus.requires((x, y)),
                outcomes.len() == i,
                split_steps(before, fluids@, collection@, split, outcomes),
                extracted@ == extracted_part(before, outcomes),
                all_ids_below(before.take(i as int), collection@.len()),
                weight_steps(
                    before,
                    outcomes,
                    collection@,
                    weigh,
                    *plus,
                    zero,
                    kept_weights,
                    extracted_weights,
                ),
                kept_weights[i as int] == kept_weight,
                extracted_weights[i as int] == extracted_weight,
        {
            let fluid = fluids[i];
            let properties = match collection.get_properties(fluid.fluid_id) {
                Ok(properties) => properties,
                Err(error) => {
                    proof {
                        assert(first_id_not_below(before, collection@.len(), i as int));
                        assert(!all_ids_below(before, collection@.len()));
                        lemma_split_keeps_ids(before, fluids@, collection@, split, outcomes);
                    }
                    self.fluids = fluids;
                    return Err(error);
                },
            };
            let outcome = split(&fluid, properties);
            let ghost kept_before = kept_weight;
            let ghost extracted_before = extracted_weight;
            match outcome {
                Some((kept, taken)) => {
                    fluids.set(i, Fluid { fluid_id: fluid.fluid_id, moles: kept });
                    extracted.push(Fluid { fluid_id: fluid.fluid_id, moles: taken });
                    let kept_part_weight = weigh(
                        &Fluid { fluid_id: fluid.fluid_id, moles: kept },
                        properties,
                    );
                    kept_weight = plus(kept_weight, kept_part_weight);
                    let extracted_part_weight = weigh(
                        &Fluid { fluid_id: fluid.fluid_id, moles: taken },
                        properties,
                    );
                    extracted_weight = plus(extracted_weight, extracted_part_weight);
                    proof {
                        assert(weight_step(
                            fluid,
                            outcome,
                            collection@[fluid.fluid_id as int],
                            weigh,
                            *plus,
                            kept_before,
                            kept_weight,
                            extracted_before,
                            extracted_weight,
                        ));
                    }
                },
                None => {},
            }
            proof {
                let previous = outcomes;
                let previous_kept = kept_weights;
                let previous_extracted = extracted_weights;
                outcomes = outcomes.push(outcome);
                kept_weights = kept_weights.push(kept_weight);
                extracted_weights = extracted_weights.push(extracted_weight);
                assert(outcomes.drop_last() == previous);
                assert forall|k: int| 0 <= k < outcomes.len() implies #[trigger] weight_step(
                    before[k],
                    outcomes[k],
                    collection@[before[k].fluid_id as int],
                    weigh,
                    *plus,
                    kept_weights[k],
                    kept_weights[k + 1],
                    extracted_weights[k],
                    extracted_weights[k + 1],
                ) by {
                    if k < i {
                        assert(outcomes[k] == previous[k]);
                        assert(kept_weights[k] == previous_kept[k]);
                        assert(kept_weights[k + 1] == previous_kept[k + 1]);
                        assert(extracted_weights[k] == previous_extracted[k]);
                        assert(extracted_weights[k + 1] == previous_extracted[k + 1]);
                    } else {
                        assert(before[k] == fluid);
                    }
                }
                assert forall|k: int| 0 <= k < i + 1 implies #[trigger] before.take(i + 1)[k].fluid_id
                    < collection@.len() by {
                    if k < i {
                        assert(before.take(i as int)[k] == before[k]);
                    }
                }
            }
        }
        proof {
            assert(before.take(n as int) =~= before);
            lemma_extracted_part_ids(before, outcomes);
            lemma_split_keeps_ids(before, fluids@, collection@, split, outcomes);
            assert(weights_accumulated(
                before,
                outcomes,
                collection@,
                weigh,
                *plus,
                zero,
                kept_weight,
                extracted_weight,
            ));
        }
        let (kept_energy, extracted_energy) = share(self.energy, kept_weight, extracted_weight);
        self.fluids = fluids;
        self.energy = kept_energy;
        Ok(Mixture { fluids: extracted, energy: extracted_energy })
    }
}

/// The energy of a mixture that starts with energy `start` and takes in the
/// fluids of `fluids` one after another, each bringing the energy that `heat`
/// gives for it and its properties (those that `properties` stores under its
/// id), added with `plus`.
pub open spec fn energy_accumulated<A, P, F: Fn(A, A) -> A, G: Fn(&Fluid<A>, &P) -> A>(
    fluids: Seq<Fluid<A>>,
    properties: Seq<P>,
    start: A,
    heat: G,
    plus: F,
    r: A,
) -> bool {
    exists|heats: Seq<A>, energies: Seq<A>|
        {
            &&& heats.len() == fluids.len()
            &&& energies.len() == fluids.len() + 1
            &&& energies[0] == start
            &&& forall|i: int|
                0 <= i < fluids.len() ==> {
                    &&& heat.ensures(
                        (&fluids[i], &properties[fluids[i].fluid_id as int]),
                        #[trigger] heats[i],
                    )
                    &&& plus.ensures((energies[i], heats[i]), energies[i + 1])
                }
            &&& energies[fluids.len() as int] == r
        }
}

impl<A: Copy> Mixture<A> {
    /// Add a fluid together with the energy it brings: `heat` gives that
    /// energy from the fluid and its properties (at some temperature).
    ///
    /// Fails, changing nothing, when the collection holds no fluid of that id.
    pub fn add_fluid_at_temperature<P, F, G>(
        &mut self,
        collection: &FluidCollection<P>,
        fluid: Fluid<A>,
        heat: &G,
        plus: &F,
    ) -> (result: Result<(), InvalidFluidId>) where
        F: Fn(A, A) -> A,
        G: Fn(&Fluid<A>, &P) -> A,

        requires
            forall|x: A, y: A| plus.requires((x, y)),
            forall|f: &Fluid<A>, p: &P| heat.requires((f, p)),
        ensures
            result is Ok <==> fluid.fluid_id < collection@.len(),
            result is Err ==> result == Err::<(), InvalidFluidId>(
                InvalidFluidId(fluid.fluid_id, collection@.len() as usize),
            ) && final(self).contents() == old(self).contents() && final(self).stored_energy()
                == old(self).stored_energy(),
            ids_ascending(final(self).contents()),
            result is Ok ==> {
                &&& combined(
                    amounts(old(self).contents()),
                    map![fluid.fluid_id => fluid.moles],
                    *plus,
                    amounts(final(self).contents()),
                )
                &&& exists|energy: A|
                    heat.ensures((&fluid, &collection@[fluid.fluid_id as int]), energy)
                        && plus.ensures((old(self).stored_energy(), energy), final(self).stored_energy())
            },
    {
        proof {
            use_type_invariant(&*self);
        }
        let properties = match collection.get_properties(fluid.fluid_id) {
            Ok(properties) => properties,
            Err(error) => {
                return Err(error);
            },
        };
        let energy = heat(&fluid, properties);
        self.add_energy(energy, plus);
        self.add_fluid(fluid, plus);
        Ok(())
    }

    /// A mixture of one fluid and the energy it brings, on top of `energy`.
    pub fn from_fluid_at_temperature<P, F, G>(
        collection: &FluidCollection<P>,
        fluid: Fluid<A>,
        energy: A,
        heat: &G,
        plus: &F,
    ) -> (result: Result<Self, InvalidFluidId>) where
        F: Fn(A, A) -> A,
        G: Fn(&Fluid<A>, &P) -> A,

        requires
            forall|x: A, y: A| plus.requires((x, y)),
            forall|f: &Fluid<A>, p: &P| heat.requires((f, p)),
        ensures
            result is Ok <==> fluid.fluid_id < collection@.len(),
            result is Err ==> result == Err::<Self, InvalidFluidId>(
                InvalidFluidId(fluid.fluid_id, collection@.len() as usize),
            ),
            result matches Ok(mixture) ==> {
                &&& ids_ascending(mixture.contents())
                &&& combined(
                    Map::<usize, A>::empty(),
                    map![fluid.fluid_id => fluid.moles],
                    *plus,
                    amounts(mixture.contents()),
                )
                &&& exists|brought: A|
                    heat.ensures((&fluid, &collection@[fluid.fluid_id as int]), brought)
                        && plus.ensures((energy, brought), mixture.stored_energy())
            },
    {
        let mut mixture = Mixture::empty(energy);
        match mixture.add_fluid_at_temperature(collection, fluid, heat, plus) {
            Ok(()) => Ok(mixture),
            Err(error) => Err(error),
        }
    }

    /// A mixture of the given fluids and the energy they bring, on top of
    /// `energy`; fluids of the same id are added together, in the order given.
    ///
    /// Fails with the first fluid, in the order given, whose id the
    /// collection does not hold.
    pub fn from_fluids_at_temperature<P, F, G>(
        collection: &FluidCollection<P>,
        fluids: Vec<Fluid<A>>,
        energy: A,
        heat: &G,
        plus: &F,
    ) -> (result: Result<Self, InvalidFluidId>) where
        F: Fn(A, A) -> A,
        G: Fn(&Fluid<A>, &P) -> A,

        requires
            forall|x: A, y: A| plus.requires((x, y)),
            forall|f: &Fluid<A>, p: &P| heat.requires((f, p)),
        ensures
            result is Ok <==> all_ids_below(fluids@, collection@.len()),
            result matches Err(error) ==> exists|q: int|
                first_id_not_below(fluids@, collection@.len(), q) && error == InvalidFluidId(
                    fluids@[q].fluid_id,
                    collection@.len() as usize,
                ),
            result matches Ok(mixture) ==> {
                &&& ids_ascending(mixture.contents())
                &&& accumulated(fluids@, *plus, amounts(mixture.contents()))
                &&& energy_accumulated(
                    fluids@,
                    collection@,
                    energy,
                    *heat,
                    *plus,
                    mixture.stored_energy(),
                )
            },
    {
        let mut mixture = Mixture::empty(energy);
        let ghost mut steps: Seq<Map<usize, A>> = seq![Map::<usize, A>::empty()];
        let ghost mut heats: Seq<A> = Seq::empty();
        let ghost mut energies: Seq<A> = seq![energy];
        let n = fluids.len();
        for i in 0..n
            invariant
                n == fluids@.len(),
                forall|x: A, y: A| plus.requires((x, y)),
                forall|f: &Fluid<A>, p: &P| heat.requires((f, p)),
                all_ids_below(fluids@.take(i as int), collection@.len()),
                ids_ascending(mixture.contents()),
                steps.len() == i + 1,
                steps[0] == Map::<usize, A>::empty(),
                forall|k: int|
                    0 <= k < i ==> combined(
                        #[trigger] steps[k],
                        map![fluids@[k].fluid_id => fluids@[k].moles],
                        *plus,
                        steps[k + 1],
                    ),
                steps[i as int] == amounts(mixture.contents()),
                heats.len() == i,
                energies.len() == i + 1,
                energies[0] == energy,
                forall|k: int|
                    0 <= k < i ==> {
                        &&& heat.ensures(
                            (&fluids@[k], &collection@[fluids@[k].fluid_id as int]),
                            #[trigger] heats[k],
                        )
                        &&& plus.ensures((energies[k], heats[k]), energies[k + 1])
                    },
                energies[i as int] == mixture.stored_energy(),
        {
            let ghost previous_amounts = amounts(mixture.contents());
            let ghost previous_energy = mixture.stored_energy();
            let fluid = fluids[i];
            match mixture.add_fluid_at_temperature(collection, fluid, heat, plus) {
                Ok(()) => {},
                Err(error) => {
                    proof {
                        assert(first_id_not_below(fluids@, collection@.len(), i as int));
                    }
                    return Err(error);
                },
            }
            proof {
                let brought = choose|brought: A|
                    heat.ensures((&fluid, &collection@[fluid.fluid_id as int]), brought)
                        && plus.ensures((previous_energy, brought), mixture.stored_energy());
                steps = steps.push(amounts(mixture.contents()));
                heats = heats.push(brought);
                energies = energies.push(mixture.stored_energy());
                assert(steps[i as int] == previous_amounts);
                assert(energies[i as int] == previous_energy);
                assert forall|k: int| 0 <= k < i + 1 implies #[trigger] fluids@.take(i + 1)[k].fluid_id
                    < collection@.len() by {
                    if k < i {
                        assert(fluids@.take(i as int)[k] == fluids@[k]);
                    }
                }
            }
        }
        proof {
            assert(fluids@.take(n as int) =~= fluids@);
            assert(steps[n as int] == amounts(mixture.contents()));
            assert(energies[n as int] == mixture.stored_energy());
        }
        Ok(mixture)
    }
}

// ---------------------------------------------------------------------------
// Laws on what building a mixture and extracting from it do
// ---------------------------------------------------------------------------

/// The amounts of the entries of `s` whose id is `fluid_id`, in their order.
pub open spec fn entries_of<A>(s: Seq<Fluid<A>>, fluid_id: usize) -> Seq<A>
    decreases s.len(),
{
    if s.len() == 0 {
        Seq::empty()
    } else {
        let rest = entries_of(s.drop_last(), fluid_id);
        if s.last().fluid_id == fluid_id {
            rest.push(s.last().moles)
        } else {
            rest
        }
    }
}

/// `total` is what adding up `xs` from left to right with `plus` may give:
/// the first value, then `plus` of the running total and each next value.
pub open spec fn left_sum<A, F: Fn(A, A) -> A>(xs: Seq<A>, plus: F, total: A) -> bool {
    &&& xs.len() > 0
    &&& exists|sums: Seq<A>|
        {
            &&& sums.len() == xs.len()
            &&& sums[0] == xs[0]
            &&& forall|i: int|
                0 <= i < xs.len() - 1 ==> plus.ensures((#[trigger] sums[i], xs[i + 1]), sums[i + 1])
            &&& sums[xs.len() - 1] == total
        }
}

proof fn lemma_left_sum_intro<A, F: Fn(A, A) -> A>(xs: Seq<A>, plus: F, total: A, sums: Seq<A>)
    requires
        xs.len() > 0,
        sums.len() == xs.len(),
        sums[0] == xs[0],
        forall|i: int|
            0 <= i < xs.len() - 1 ==> plus.ensures((#[trigger] sums[i], xs[i + 1]), sums[i + 1]),
        sums[xs.len() - 1] == total,
    ensures
        left_sum(xs, plus, total),
{
}

proof fn lemma_accumulated_intro<A, F: Fn(A, A) -> A>(
    s: Seq<Fluid<A>>,
    plus: F,
    r: Map<usize, A>,
    steps: Seq<Map<usize, A>>,
)
    requires
        steps.len() == s.len() + 1,
        steps[0] == Map::<usize, A>::empty(),
        forall|i: int|
            0 <= i < s.len() ==> combined(
                #[trigger] steps[i],
                map![s[i].fluid_id => s[i].moles],
                plus,
                steps[i + 1],
            ),
        steps[s.len() as int] == r,
    ensures
        accumulated(s, plus, r),
{
}

/// Building a mixture from a list of fluids (as `new` and
/// `from_fluids_at_temperature` do) holds exactly the fluids that occur in
/// the list, and the amount of each is the sum, in list order, of every entry
/// of that fluid: no entry is left out, also where the same fluid comes twice
/// in a row.
pub proof fn lemma_accumulated_sums_each_fluid<A, F: Fn(A, A) -> A>(
    s: Seq<Fluid<A>>,
    plus: F,
    r: Map<usize, A>,
)
    requires
        accumulated(s, plus, r),
    ensures
        forall|k: usize| #[trigger] r.contains_key(k) <==> entries_of(s, k).len() > 0,
        forall|k: usize| #[trigger] r.contains_key(k) ==> left_sum(entries_of(s, k), plus, r[k]),
    decreases s.len(),
{
    let steps = choose|steps: Seq<Map<usize, A>>|
        {
            &&& steps.len() == s.len() + 1
            &&& steps[0] == Map::<usize, A>::empty()
            &&& forall|i: int|
                0 <= i < s.len() ==> combined(
                    #[trigger] steps[i],
                    map![s[i].fluid_id => s[i].moles],
                    plus,
                    steps[i + 1],
                )
            &&& steps[s.len() as int] == r
        };
    if s.len() == 0 {
        assert forall|k: usize| #[trigger] r.contains_key(k) <==> entries_of(s, k).len() > 0 by {
            assert(r == Map::<usize, A>::empty());
        }
    } else {
        let n = s.len() - 1;
        let prefix = s.drop_last();
        let f = s[n];
        let r0 = steps[n];
        let prefix_steps = steps.take(n + 1);
        assert(accumulated(prefix, plus, r0)) by {
            assert(prefix_steps.len() == prefix.len() + 1);
            assert(prefix_steps[0] == steps[0]);
            assert forall|i: int| 0 <= i < prefix.len() implies combined(
                #[trigger] prefix_steps[i],
                map![prefix[i].fluid_id => prefix[i].moles],
                plus,
                prefix_steps[i + 1],
            ) by {
                assert(prefix[i] == s[i]);
                assert(combined(
                    steps[i],
                    map![s[i].fluid_id => s[i].moles],
                    plus,
                    steps[i + 1],
                ));
            }
            assert(prefix_steps[prefix.len() as int] == r0);
            lemma_accumulated_intro(prefix, plus, r0, prefix_steps);
        }
        lemma_accumulated_sums_each_fluid(prefix, plus, r0);
        let single = map![f.fluid_id => f.moles];
        assert(combined(r0, single, plus, r));
        assert(s.last() == f);
        assert forall|k: usize| #[trigger] r.contains_key(k) <==> entries_of(s, k).len() > 0 by {
            assert(r.dom().contains(k) <==> r0.dom().union(single.dom()).contains(k));
            if k != f.fluid_id {
                assert(entries_of(s, k) == entries_of(prefix, k));
            } else {
                assert(entries_of(s, k) == entries_of(prefix, k).push(f.moles));
            }
        }
        assert forall|k: usize| #[trigger] r.contains_key(k) implies left_sum(
            entries_of(s, k),
            plus,
            r[k],
        ) by {
            if k != f.fluid_id {
                assert(entries_of(s, k) == entries_of(prefix, k));
                assert(r0.contains_key(k));
                assert(!single.contains_key(k));
                assert(r[k] == r0[k]);
            } else {
                let xs = entries_of(s, k);
                let xs0 = entries_of(prefix, k);
                assert(xs == xs0.push(f.moles));
                assert(single[k] == f.moles);
                if r0.contains_key(k) {
                    assert(left_sum(xs0, plus, r0[k]));
                    let sums0 = choose|sums: Seq<A>|
                        {
                            &&& sums.len() == xs0.len()
                            &&& sums[0] == xs0[0]
                            &&& forall|i: int|
                                0 <= i < xs0.len() - 1 ==> plus.ensures(
                                    (#[trigger] sums[i], xs0[i + 1]),
                                    sums[i + 1],
                                )
                            &&& sums[xs0.len() - 1] == r0[k]
                        };
                    let sums = sums0.push(r[k]);
                    assert(plus.ensures((r0[k], f.moles), r[k]));
                    assert forall|i: int| 0 <= i < xs.len() - 1 implies plus.ensures(
                        (#[trigger] sums[i], xs[i + 1]),
                        sums[i + 1],
                    ) by {
                        if i < xs0.len() - 1 {
                            assert(sums[i] == sums0[i]);
                            assert(sums[i + 1] == sums0[i + 1]);
                            assert(xs[i + 1] == xs0[i + 1]);
                        } else {
                            assert(sums[i] == r0[k]);
                            assert(xs[i + 1] == f.moles);
                        }
                    }
                    assert(sums[0] == xs[0]);
                    lemma_left_sum_intro(xs, plus, r[k], sums);
                } else {
                    assert(xs0.len() == 0);
                    assert(r[k] == f.moles);
                    let sums = seq![f.moles];
                    assert(xs =~= seq![f.moles]);
                    assert(sums[xs.len() - 1] == r[k]);
                    lemma_left_sum_intro(xs, plus, r[k], sums);
                }
            }
        }
    }
}

/// The energy of a mixture built from a list of fluids at a temperature (as
/// `from_fluids_at_temperature` does) is the starting energy plus the heat of
/// every entry of the list, added in list order, each heat given for the
/// entry and the properties stored under its own id: no entry's heat is left
/// out, also where the same fluid comes twice in a row.
pub proof fn lemma_energy_adds_every_heat<A, P, F: Fn(A, A) -> A, G: Fn(&Fluid<A>, &P) -> A>(
    fluids: Seq<Fluid<A>>,
    properties: Seq<P>,
    start: A,
    heat: G,
    plus: F,
    r: A,
)
    requires
        energy_accumulated(fluids, properties, start, heat, plus, r),
    ensures
        exists|heats: Seq<A>|
            {
                &&& heats.len() == fluids.len()
                &&& forall|i: int|
                    0 <= i < fluids.len() ==> heat.ensures(
                        (&fluids[i], &properties[fluids[i].fluid_id as int]),
                        #[trigger] heats[i],
                    )
                &&& left_sum(seq![start] + heats, plus, r)
            },
{
    let (heats, energies) = choose|heats: Seq<A>, energies: Seq<A>|
        {
            &&& heats.len() == fluids.len()
            &&& energies.len() == fluids.len() + 1
            &&& energies[0] == start
            &&& forall|i: int|
                0 <= i < fluids.len() ==> {
                    &&& heat.ensures(
                        (&fluids[i], &properties[fluids[i].fluid_id as int]),
                        #[trigger] heats[i],
                    )
                    &&& plus.ensures((energies[i], heats[i]), energies[i + 1])
                }
            &&& energies[fluids.len() as int] == r
        };
    let xs = seq![start] + heats;
    assert forall|i: int| 0 <= i < xs.len() - 1 implies plus.ensures(
        (#[trigger] energies[i], xs[i + 1]),
        energies[i + 1],
    ) by {
        assert(xs[i + 1] == heats[i]);
    }
    assert(xs[0] == start);
    assert(left_sum(xs, plus, r));
}

/// Splitting reads the properties of each fluid only through the fluid's id:
/// with any other table of properties that stores the same properties under
/// the ids of the split fluids, the same split is described.
pub proof fn lemma_split_reads_properties_by_id<A, P, F: Fn(&Fluid<A>, &P) -> Option<(A, A)>>(
    before: Seq<Fluid<A>>,
    after: Seq<Fluid<A>>,
    properties: Seq<P>,
    other: Seq<P>,
    split: F,
    outcomes: Seq<Option<(A, A)>>,
)
    requires
        split_steps(before, after, properties, split, outcomes),
        forall|i: int|
            0 <= i < outcomes.len() ==> #[trigger] before[i].fluid_id < other.len() && other[before[i].fluid_id as int]
                == properties[before[i].fluid_id as int],
    ensures
        split_steps(before, after, other, split, outcomes),
{
    assert forall|i: int| 0 <= i < outcomes.len() implies {
        &&& before[i].fluid_id < other.len()
        &&& split.ensures((&before[i], &other[before[i].fluid_id as int]), #[trigger] outcomes[i])
        &&& after[i] == kept_part(before[i], outcomes[i])
    } by {
        assert(before[i].fluid_id < other.len());
    }
}

/// Weighing reads the properties of each fluid only through the fluid's id:
/// with any other table of properties that stores the same properties under
/// the ids of the split fluids, the same weights come out.
pub proof fn lemma_weights_read_properties_by_id<A, P, W: Fn(&Fluid<A>, &P) -> A, F: Fn(A, A) -> A>(
    before: Seq<Fluid<A>>,
    outcomes: Seq<Option<(A, A)>>,
    properties: Seq<P>,
    other: Seq<P>,
    weigh: W,
    plus: F,
    zero: A,
    kept_weight: A,
    extracted_weight: A,
)
    requires
        weights_accumulated(
            before,
            outcomes,
            properties,
            weigh,
            plus,
            zero,
            kept_weight,
            extracted_weight,
        ),
        forall|i: int|
            0 <= i < outcomes.len() ==> #[trigger] before[i].fluid_id < other.len() && other[before[i].fluid_id as int]
                == properties[before[i].fluid_id as int],
    ensures
        weights_accumulated(before, outcomes, other, weigh, plus, zero, kept_weight, extracted_weight),
{
    let (kept, extracted) = choose|kept: Seq<A>, extracted: Seq<A>|
        {
            &&& weight_steps(before, outcomes, properties, weigh, plus, zero, kept, extracted)
            &&& kept[outcomes.len() as int] == kept_weight
            &&& extracted[outcomes.len() as int] == extracted_weight
        };
    assert forall|i: int| 0 <= i < outcomes.len() implies #[trigger] weight_step(
        before[i],
        outcomes[i],
        other[before[i].fluid_id as int],
        weigh,
        plus,
        kept[i],
        kept[i + 1],
        extracted[i],
        extracted[i + 1],
    ) by {
        assert(before[i].fluid_id < other.len());
        assert(weight_step(
            before[i],
            outcomes[i],
            properties[before[i].fluid_id as int],
            weigh,
            plus,
            kept[i],
            kept[i + 1],
            extracted[i],
            extracted[i + 1],
        ));
    }
    assert(weight_steps(before, outcomes, other, weigh, plus, zero, kept, extracted));
}

/// A fluid whose own properties (those stored under its id) make `split`
/// leave every fluid alone is neither changed nor extracted, wherever it
/// stands in the mixture.
pub proof fn lemma_declined_fluid_stays<A, P, F: Fn(&Fluid<A>, &P) -> Option<(A, A)>>(
    before: Seq<Fluid<A>>,
    after: Seq<Fluid<A>>,
    properties: Seq<P>,
    split: F,
    outcomes: Seq<Option<(A, A)>>,
    i: int,
)
    requires
        ids_ascending(before),
        split_steps(before, after, properties, split, outcomes),
        0 <= i < outcomes.len(),
        forall|f: &Fluid<A>, o: Option<(A, A)>|
            #[trigger] split.ensures((f, &properties[before[i].fluid_id as int]), o) ==> o is None,
    ensures
        after[i] == before[i],
        !amounts(extracted_part(before, outcomes)).contains_key(before[i].fluid_id),
{
    assert(split.ensures((&before[i], &properties[before[i].fluid_id as int]), outcomes[i]));
    assert(outcomes[i] is None);
    lemma_extracted_part_amounts(before, outcomes);
}

/// A fluid whose own properties (those stored under its id) make `split`
/// extract from every fluid keeps the amount `split` keeps and is extracted
/// with the amount `split` extracts, wherever it stands in the mixture.
pub proof fn lemma_chosen_fluid_is_extracted<A, P, F: Fn(&Fluid<A>, &P) -> Option<(A, A)>>(
    before: Seq<Fluid<A>>,
    after: Seq<Fluid<A>>,
    properties: Seq<P>,
    split: F,
    outcomes: Seq<Option<(A, A)>>,
    i: int,
)
    requires
        ids_ascending(before),
        split_steps(before, after, properties, split, outcomes),
        0 <= i < outcomes.len(),
        forall|f: &Fluid<A>, o: Option<(A, A)>|
            #[trigger] split.ensures((f, &properties[before[i].fluid_id as int]), o) ==> o is Some,
    ensures
        exists|kept: A, extracted: A|
            {
                &&& split.ensures(
                    (&before[i], &properties[before[i].fluid_id as int]),
                    Some((kept, extracted)),
                )
                &&& after[i] == Fluid { fluid_id: before[i].fluid_id, moles: kept }
                &&& amounts(extracted_part(before, outcomes)).contains_key(before[i].fluid_id)
                &&& amounts(extracted_part(before, outcomes))[before[i].fluid_id] == extracted
            },
{
    assert(split.ensures((&before[i], &properties[before[i].fluid_id as int]), outcomes[i]));
    assert(outcomes[i] is Some);
    lemma_extracted_part_amounts(before, outcomes);
    let (kept, extracted) = outcomes[i].unwrap();
    assert(outcomes[i] == Some((kept, extracted)));
}

} // verus!
