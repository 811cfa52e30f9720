use vstd::prelude::*;

verus! {

/// Properties that a gas has.
///
/// Belongs to the properties of a fluid.
pub struct GasFluidProperties {}

/// A fluid id that is out of range: the id that was asked for, and the number
/// of fluids that the collection holds.
#[derive(Debug, PartialEq, Eq, Structural)]
pub struct InvalidFluidId(pub usize, pub usize);

/// A collection of fluid properties and their unique ids.
///
/// The id of a fluid is the position at which it was added: the first fluid
/// added gets id 0, the next id 1, and so on.
pub struct FluidCollection<P> {
    fluids: Vec<P>,
}

impl<P> View for FluidCollection<P> {
    type V = Seq<P>;

    closed spec fn view(&self) -> Seq<P> {
        self.fluids@
    }
}

/// What looking up `fluid_id` in a collection whose fluids are `fluids` gives:
/// the properties stored under that id, or the error naming the id and the
/// number of fluids.
pub open spec fn lookup_result<P>(fluids: Seq<P>, fluid_id: usize) -> Result<P, InvalidFluidId> {
    if fluid_id < fluids.len() {
        Ok(fluids[fluid_id as int])
    } else {
        Err(InvalidFluidId(fluid_id, fluids.len() as usize))
    }
}

impl<P> FluidCollection<P> {
    /// An empty collection.
    pub fn new() -> (collection: Self)
        ensures
            collection@ == Seq::<P>::empty(),
    {
        FluidCollection { fluids: Vec::new() }
    }

    /// The number of fluids in the collection.
    pub fn len(&self) -> (n: usize)
        ensures
            n == self@.len(),
    {
        self.fluids.len()
    }

    /// Add a new fluid and assign it an id.
    pub fn add_fluid(&mut self, properties: P) -> (fluid_id: usize)
        ensures
            fluid_id == old(self)@.len(),
            final(self)@ == old(self)@.push(properties),
    {
        let fluid_id = self.fluids.len();
        self.fluids.push(properties);
        fluid_id
    }

    /// Get the properties of a particular fluid.
    pub fn get_properties(&self, fluid_id: usize) -> (result: Result<&P, InvalidFluidId>)
        ensures
            match result {
                Ok(properties) => lookup_result(self@, fluid_id) == Ok::<P, InvalidFluidId>(
                    *properties,
                ),
                Err(error) => lookup_result(self@, fluid_id) == Err::<P, InvalidFluidId>(error),
            },
    {
        if fluid_id < self.fluids.len() {
            Ok(&self.fluids[fluid_id])
        } else {
            Err(InvalidFluidId(fluid_id, self.fluids.len()))
        }
    }

    /// The fluid properties together with their ids, in id order.
    pub fn iter(&self) -> (entries: Vec<(usize, &P)>)
        ensures
            entries@.len() == self@.len(),
            forall|i: int|
                0 <= i < entries@.len() ==> (#[trigger] entries@[i]).0 == i && *entries@[i].1
                    == self@[i],
    {
        let mut entries: Vec<(usize, &P)> = Vec::new();
        let n = self.fluids.len();
        for i in 0..n
            invariant
                n == self@.len(),
                entries@.len() == i,
                forall|k: int|
                    0 <= k < i ==> (#[trigger] entries@[k]).0 == k && *entries@[k].1 == self@[k],
        {
            let properties: &P = &self.fluids[i];
            entries.push((i, properties));
        }
        entries
    }
}

impl<P> Default for FluidCollection<P> {
    fn default() -> (collection: Self)
        ensures
            collection@ == Seq::<P>::empty(),
    {
        FluidCollection::new()
    }
}

/// Looking a fluid up right after adding it gives back the properties that
/// were added, and every id that was valid before still gives what it gave.
pub proof fn lemma_lookup_after_add<P>(before: Seq<P>, properties: P, fluid_id: usize)
    requires
        before.len() < usize::MAX,
    ensures
        lookup_result(before.push(properties), before.len() as usize) == Ok::<
            P,
            InvalidFluidId,
        >(properties),
        fluid_id < before.len() ==> lookup_result(before.push(properties), fluid_id)
            == lookup_result(before, fluid_id),
{
}

/// Ids are handed out in order: a lookup succeeds exactly for the ids below
/// the number of fluids added.
pub proof fn lemma_lookup_succeeds_below_len<P>(fluids: Seq<P>, fluid_id: usize)
    requires
        fluids.len() <= usize::MAX,
    ensures
        lookup_result(fluids, fluid_id) is Ok <==> fluid_id < fluids.len(),
{
}

} // verus!
