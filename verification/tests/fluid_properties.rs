use atmospherics_simulation::fluid_properties::{FluidCollection, GasFluidProperties, InvalidFluidId};

#[test]
fn fluid_ids_are_assigned_in_order() {
    let mut collection: FluidCollection<&str> = FluidCollection::default();
    assert_eq!(collection.add_fluid("water"), 0);
    assert_eq!(collection.add_fluid("oxygen"), 1);
    assert_eq!(collection.len(), 2);
}

#[test]
fn lookup_after_add_gives_the_added_properties() {
    let mut collection = FluidCollection::new();
    let id = collection.add_fluid(42u32);
    assert_eq!(collection.get_properties(id), Ok(&42));
    let other = collection.add_fluid(7u32);
    assert_eq!(collection.get_properties(other), Ok(&7));
    assert_eq!(collection.get_properties(id), Ok(&42));
}

#[test]
fn lookup_out_of_range_names_id_and_count() {
    let mut collection = FluidCollection::new();
    assert_eq!(collection.get_properties(0).err(), Some(InvalidFluidId(0, 0)));
    collection.add_fluid(GasFluidProperties {});
    collection.add_fluid(GasFluidProperties {});
    assert!(collection.get_properties(1).is_ok());
    assert_eq!(collection.get_properties(5).err(), Some(InvalidFluidId(5, 2)));
    assert_eq!(collection.get_properties(2).err(), Some(InvalidFluidId(2, 2)));
}

#[test]
fn iter_pairs_ids_with_properties() {
    let mut collection = FluidCollection::new();
    collection.add_fluid('a');
    collection.add_fluid('b');
    assert_eq!(collection.iter(), vec![(0, &'a'), (1, &'b')]);
}
