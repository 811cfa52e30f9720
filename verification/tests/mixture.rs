use atmospherics_simulation::fluid_properties::{FluidCollection, InvalidFluidId};
use atmospherics_simulation::mixture::{Fluid, Mixture};

fn plus(a: f32, b: f32) -> f32 {
    a + b
}

fn ids<A: Copy>(mixture: &Mixture<A>) -> Vec<usize> {
    mixture.fluids().iter().map(|fluid| fluid.fluid_id).collect()
}

#[test]
fn add_mixture_identical_fluid() {
    let mut mixture = Mixture::new(
        vec![Fluid {
            fluid_id: 5,
            moles: 1.,
        }],
        10.,
        &plus,
    );

    mixture.add_mixture(
        Mixture::new(
            vec![Fluid {
                fluid_id: 5,
                moles: 1.,
            }],
            10.,
            &plus,
        ),
        &plus,
    );

    assert_eq!(mixture.fluids()[0].moles, 1. + 1.);
}

#[test]
fn add_mixture_lower_fluid() {
    let mut mixture = Mixture::new(
        vec![Fluid {
            fluid_id: 5,
            moles: 1.,
        }],
        10.,
        &plus,
    );

    mixture.add_mixture(
        Mixture::new(
            vec![Fluid {
                fluid_id: 4,
                moles: 1.,
            }],
            10.,
            &plus,
        ),
        &plus,
    );

    assert_eq!(mixture.fluids()[0].fluid_id, 4);
    assert_eq!(mixture.fluids()[1].fluid_id, 5);
}

#[test]
fn add_mixture_higher_fluid() {
    let mut mixture = Mixture::new(
        vec![Fluid {
            fluid_id: 5,
            moles: 1.,
        }],
        10.,
        &plus,
    );

    mixture.add_mixture(
        Mixture::new(
            vec![Fluid {
                fluid_id: 6,
                moles: 1.,
            }],
            10.,
            &plus,
        ),
        &plus,
    );

    assert_eq!(mixture.fluids()[0].fluid_id, 5);
    assert_eq!(mixture.fluids()[1].fluid_id, 6);
}

#[test]
fn add_mixture_merges_interleaved_lists_and_energy() {
    let add = |a: u32, b: u32| a + b;
    let mut mixture = Mixture::new(
        vec![
            Fluid { fluid_id: 1, moles: 10u32 },
            Fluid { fluid_id: 4, moles: 40 },
            Fluid { fluid_id: 6, moles: 60 },
        ],
        100u32,
        &add,
    );
    mixture.add_mixture(
        Mixture::new(
            vec![
                Fluid { fluid_id: 0, moles: 1 },
                Fluid { fluid_id: 4, moles: 4 },
                Fluid { fluid_id: 5, moles: 5 },
                Fluid { fluid_id: 9, moles: 9 },
            ],
            7,
            &add,
        ),
        &add,
    );
    assert_eq!(ids(&mixture), vec![0, 1, 4, 5, 6, 9]);
    let moles: Vec<u32> = mixture.fluids().iter().map(|fluid| fluid.moles).collect();
    assert_eq!(moles, vec![1, 10, 44, 5, 60, 9]);
    assert_eq!(mixture.energy(), 107);
}

#[test]
fn new_orders_and_combines_fluids() {
    let add = |a: u32, b: u32| a + b;
    let mixture = Mixture::new(
        vec![
            Fluid { fluid_id: 3, moles: 1u32 },
            Fluid { fluid_id: 1, moles: 2 },
            Fluid { fluid_id: 3, moles: 4 },
            Fluid { fluid_id: 2, moles: 8 },
        ],
        5u32,
        &add,
    );
    assert_eq!(ids(&mixture), vec![1, 2, 3]);
    let moles: Vec<u32> = mixture.fluids().iter().map(|fluid| fluid.moles).collect();
    assert_eq!(moles, vec![2, 8, 5]);
    assert_eq!(mixture.energy(), 5);
}

#[test]
fn add_fluid_inserts_or_combines() {
    let add = |a: u32, b: u32| a * 10 + b;
    let mut mixture = Mixture::empty(0u32);
    mixture.add_fluid(Fluid { fluid_id: 2, moles: 1 }, &add);
    mixture.add_fluid(Fluid { fluid_id: 0, moles: 3 }, &add);
    mixture.add_fluid(Fluid { fluid_id: 2, moles: 7 }, &add);
    assert_eq!(ids(&mixture), vec![0, 2]);
    // The amount already held comes first.
    assert_eq!(mixture.fluids()[1].moles, 17);
    assert_eq!(mixture.energy(), 0);
}

#[test]
fn add_energy_uses_the_sum() {
    let mut mixture = Mixture::empty(1.5f32);
    mixture.add_energy(2.0, &plus);
    assert_eq!(mixture.energy(), 3.5);
}

#[test]
fn lookup_properties_in_fluid_order() {
    let mut collection = FluidCollection::new();
    collection.add_fluid("liquid");
    collection.add_fluid("gas");
    let add = |a: u32, b: u32| a + b;
    let mixture = Mixture::new(
        vec![Fluid { fluid_id: 1, moles: 1u32 }, Fluid { fluid_id: 0, moles: 1 }],
        0,
        &add,
    );
    assert_eq!(mixture.lookup_properties(&collection), Ok(vec![&"liquid", &"gas"]));
}

#[test]
fn lookup_properties_reports_first_unknown_fluid() {
    let mut collection = FluidCollection::new();
    collection.add_fluid("only");
    let add = |a: u32, b: u32| a + b;
    let mixture = Mixture::new(
        vec![
            Fluid { fluid_id: 0, moles: 1u32 },
            Fluid { fluid_id: 4, moles: 1 },
            Fluid { fluid_id: 3, moles: 1 },
        ],
        0,
        &add,
    );
    assert_eq!(mixture.lookup_properties(&collection), Err(InvalidFluidId(3, 1)));
}

#[test]
fn extract_fluids_splits_amounts_and_energy() {
    let mut collection = FluidCollection::new();
    collection.add_fluid(true);
    collection.add_fluid(false);
    collection.add_fluid(true);
    let add = |a: u32, b: u32| a + b;
    let mut mixture = Mixture::new(
        vec![
            Fluid { fluid_id: 0, moles: 10u32 },
            Fluid { fluid_id: 1, moles: 20 },
            Fluid { fluid_id: 2, moles: 30 },
        ],
        90u32,
        &add,
    );
    // Take a tenth of every fluid whose properties say `true`.
    let extracted = mixture
        .extract_fluids(
            &collection,
            |fluid: &Fluid<u32>, take: &bool| {
                if *take {
                    Some((fluid.moles - fluid.moles / 10, fluid.moles / 10))
                } else {
                    None
                }
            },
            |fluid: &Fluid<u32>, _: &bool| fluid.moles,
            0,
            |energy, kept_weight, extracted_weight| {
                let extracted_energy = energy * extracted_weight / (kept_weight + extracted_weight);
                (energy - extracted_energy, extracted_energy)
            },
            &add,
        )
        .unwrap();
    assert_eq!(ids(&extracted), vec![0, 2]);
    let taken: Vec<u32> = extracted.fluids().iter().map(|fluid| fluid.moles).collect();
    assert_eq!(taken, vec![1, 3]);
    let kept: Vec<u32> = mixture.fluids().iter().map(|fluid| fluid.moles).collect();
    assert_eq!(kept, vec![9, 20, 27]);
    assert_eq!(mixture.energy(), 81);
    assert_eq!(extracted.energy(), 9);
}

#[test]
fn extract_fluids_stops_at_unknown_fluid() {
    let mut collection = FluidCollection::new();
    collection.add_fluid(());
    let add = |a: u32, b: u32| a + b;
    let mut mixture = Mixture::new(
        vec![Fluid { fluid_id: 0, moles: 10u32 }, Fluid { fluid_id: 1, moles: 20 }],
        50u32,
        &add,
    );
    let result = mixture.extract_fluids(
        &collection,
        |fluid: &Fluid<u32>, _: &()| Some((0, fluid.moles)),
        |fluid: &Fluid<u32>, _: &()| fluid.moles,
        0,
        |energy, _, _| (0, energy),
        &add,
    );
    assert_eq!(result.err(), Some(InvalidFluidId(1, 1)));
    // The fluid before the unknown one has already been extracted from.
    let kept: Vec<u32> = mixture.fluids().iter().map(|fluid| fluid.moles).collect();
    assert_eq!(kept, vec![0, 20]);
    assert_eq!(mixture.energy(), 50);
}

#[test]
fn add_fluid_at_temperature_adds_heat_and_fluid() {
    let mut collection = FluidCollection::new();
    collection.add_fluid(3u32); // heat per mole and degree
    collection.add_fluid(5u32);
    let add = |a: u32, b: u32| a + b;
    let heat = |fluid: &Fluid<u32>, per_mole: &u32| fluid.moles * per_mole * 10;
    let mut mixture = Mixture::empty(1u32);
    assert_eq!(
        mixture.add_fluid_at_temperature(&collection, Fluid { fluid_id: 1, moles: 2 }, &heat, &add),
        Ok(())
    );
    assert_eq!(ids(&mixture), vec![1]);
    assert_eq!(mixture.energy(), 1 + 2 * 5 * 10);
}

#[test]
fn add_fluid_at_temperature_rejects_unknown_fluid() {
    let mut collection = FluidCollection::new();
    collection.add_fluid(3u32);
    let add = |a: u32, b: u32| a + b;
    let heat = |fluid: &Fluid<u32>, per_mole: &u32| fluid.moles * per_mole;
    let mut mixture = Mixture::empty(1u32);
    assert_eq!(
        mixture.add_fluid_at_temperature(&collection, Fluid { fluid_id: 4, moles: 2 }, &heat, &add),
        Err(InvalidFluidId(4, 1))
    );
    assert!(mixture.fluids().is_empty());
    assert_eq!(mixture.energy(), 1);
}

#[test]
fn from_fluid_at_temperature_builds_one_fluid() {
    let mut collection = FluidCollection::new();
    collection.add_fluid(3u32);
    let add = |a: u32, b: u32| a + b;
    let heat = |fluid: &Fluid<u32>, per_mole: &u32| fluid.moles * per_mole;
    let mixture =
        Mixture::from_fluid_at_temperature(&collection, Fluid { fluid_id: 0, moles: 4 }, 0, &heat, &add)
            .unwrap();
    assert_eq!(ids(&mixture), vec![0]);
    assert_eq!(mixture.energy(), 12);
    let missing =
        Mixture::from_fluid_at_temperature(&collection, Fluid { fluid_id: 1, moles: 4 }, 0, &heat, &add);
    assert_eq!(missing.err(), Some(InvalidFluidId(1, 1)));
}

#[test]
fn from_fluids_at_temperature_sums_heat() {
    let mut collection = FluidCollection::new();
    collection.add_fluid(1u32);
    collection.add_fluid(2u32);
    let add = |a: u32, b: u32| a + b;
    let heat = |fluid: &Fluid<u32>, per_mole: &u32| fluid.moles * per_mole;
    let mixture = Mixture::from_fluids_at_temperature(
        &collection,
        vec![
            Fluid { fluid_id: 1, moles: 3 },
            Fluid { fluid_id: 0, moles: 5 },
            Fluid { fluid_id: 1, moles: 1 },
        ],
        0,
        &heat,
        &add,
    )
    .unwrap();
    assert_eq!(ids(&mixture), vec![0, 1]);
    let moles: Vec<u32> = mixture.fluids().iter().map(|fluid| fluid.moles).collect();
    assert_eq!(moles, vec![5, 4]);
    assert_eq!(mixture.energy(), 6 + 5 + 2);
}

#[test]
fn from_fluids_at_temperature_reports_first_unknown_in_given_order() {
    let mut collection = FluidCollection::new();
    collection.add_fluid(1u32);
    let add = |a: u32, b: u32| a + b;
    let heat = |fluid: &Fluid<u32>, per_mole: &u32| fluid.moles * per_mole;
    let result = Mixture::from_fluids_at_temperature(
        &collection,
        vec![
            Fluid { fluid_id: 0, moles: 3 },
            Fluid { fluid_id: 7, moles: 5 },
            Fluid { fluid_id: 2, moles: 1 },
        ],
        0,
        &heat,
        &add,
    );
    assert_eq!(result.err(), Some(InvalidFluidId(7, 1)));
}

#[test]
fn extracting_and_adding_back_restores_amounts() {
    let mut collection = FluidCollection::new();
    collection.add_fluid(2u32);
    collection.add_fluid(0u32);
    collection.add_fluid(3u32);
    let add = |a: u32, b: u32| a + b;
    let mut mixture = Mixture::new(
        vec![
            Fluid { fluid_id: 0, moles: 10u32 },
            Fluid { fluid_id: 1, moles: 20 },
            Fluid { fluid_id: 2, moles: 30 },
        ],
        60u32,
        &add,
    );
    let extracted = mixture
        .extract_fluids(
            &collection,
            |fluid: &Fluid<u32>, divisor: &u32| {
                if *divisor == 0 {
                    None
                } else {
                    Some((fluid.moles - fluid.moles / divisor, fluid.moles / divisor))
                }
            },
            |fluid: &Fluid<u32>, _: &u32| fluid.moles,
            0,
            |energy, _, _| (energy / 2, energy - energy / 2),
            &add,
        )
        .unwrap();
    mixture.add_mixture(extracted, &add);
    let moles: Vec<u32> = mixture.fluids().iter().map(|fluid| fluid.moles).collect();
    assert_eq!(ids(&mixture), vec![0, 1, 2]);
    assert_eq!(moles, vec![10, 20, 30]);
    assert_eq!(mixture.energy(), 60);
}

#[test]
fn extract_fluids_shares_energy_by_weight() {
    let mut collection = FluidCollection::new();
    collection.add_fluid(1u32); // weight per mole
    collection.add_fluid(3u32);
    let add = |a: u32, b: u32| a + b;
    let mut mixture = Mixture::new(
        vec![Fluid { fluid_id: 0, moles: 10u32 }, Fluid { fluid_id: 1, moles: 10 }],
        200u32,
        &add,
    );
    let extracted = mixture
        .extract_fluids(
            &collection,
            |fluid: &Fluid<u32>, _: &u32| Some((fluid.moles - 5, 5)),
            |fluid: &Fluid<u32>, per_mole: &u32| fluid.moles * per_mole,
            0,
            |energy, kept_weight, extracted_weight| {
                let extracted_energy = energy * extracted_weight / (kept_weight + extracted_weight);
                (energy - extracted_energy, extracted_energy)
            },
            &add,
        )
        .unwrap();
    // Kept weight 5 * 1 + 5 * 3 = 20, extracted weight 20: half the energy each.
    assert_eq!(mixture.energy(), 100);
    assert_eq!(extracted.energy(), 100);
}

#[test]
fn merging_commutes_for_commutative_addition() {
    let add = |a: u32, b: u32| a + b;
    let make_a = || {
        Mixture::new(
            vec![Fluid { fluid_id: 2, moles: 3u32 }, Fluid { fluid_id: 5, moles: 7 }],
            11u32,
            &add,
        )
    };
    let make_b = || {
        Mixture::new(
            vec![Fluid { fluid_id: 1, moles: 4u32 }, Fluid { fluid_id: 5, moles: 1 }],
            13u32,
            &add,
        )
    };
    let mut ab = make_a();
    ab.add_mixture(make_b(), &add);
    let mut ba = make_b();
    ba.add_mixture(make_a(), &add);
    assert_eq!(ids(&ab), ids(&ba));
    let ab_moles: Vec<u32> = ab.fluids().iter().map(|fluid| fluid.moles).collect();
    let ba_moles: Vec<u32> = ba.fluids().iter().map(|fluid| fluid.moles).collect();
    assert_eq!(ab_moles, ba_moles);
    assert_eq!(ab.energy(), ba.energy());
}

#[test]
fn merging_with_empty_changes_nothing() {
    let add = |a: u32, b: u32| a + b;
    let make = || {
        Mixture::new(
            vec![Fluid { fluid_id: 2, moles: 3u32 }, Fluid { fluid_id: 5, moles: 7 }],
            11u32,
            &add,
        )
    };
    let mut merged = make();
    merged.add_mixture(Mixture::empty(0), &add);
    let mut into_empty = Mixture::empty(0);
    into_empty.add_mixture(make(), &add);
    for mixture in [&merged, &into_empty] {
        assert_eq!(ids(mixture), vec![2, 5]);
        let moles: Vec<u32> = mixture.fluids().iter().map(|fluid| fluid.moles).collect();
        assert_eq!(moles, vec![3, 7]);
        assert_eq!(mixture.energy(), 11);
    }
}
