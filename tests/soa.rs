use dods::range::Bound;
use dods::soa::Soa3;

#[derive(Debug, PartialEq, Clone)]
struct SensorReading {
    temperature: f32,
    pressure: f32,
    timestamp: u64,
}

type SensorReadingSoA = Soa3<f32, f32, u64>;

fn row(r: SensorReading) -> (f32, f32, u64) {
    (r.temperature, r.pressure, r.timestamp)
}

fn reading(t: (f32, f32, u64)) -> SensorReading {
    SensorReading {
        temperature: t.0,
        pressure: t.1,
        timestamp: t.2,
    }
}

#[test]
fn soa_push_swap_remove_pop_len() {
    let mut soa = SensorReadingSoA::new();

    let a = SensorReading {
        temperature: 10.5,
        pressure: 101.3,
        timestamp: 1,
    };
    let b = SensorReading {
        temperature: 11.0,
        pressure: 102.7,
        timestamp: 2,
    };

    soa.push(row(a.clone()));
    soa.push(row(b.clone()));
    assert_eq!(soa.len(), 2);

    let removed = reading(soa.swap_remove(0));
    assert_eq!(soa.len(), 1);
    assert!(removed == a || removed == b);

    let remaining = soa.pop().map(reading);
    assert_eq!(soa.len(), 0);
    assert!(remaining == Some(a) || remaining == Some(b));

    let empty = soa.pop();
    assert_eq!(empty, None);
}

#[test]
fn soa_get() {
    let mut soa = SensorReadingSoA::new();
    let a = SensorReading {
        temperature: 10.5,
        pressure: 101.3,
        timestamp: 1,
    };
    let b = SensorReading {
        temperature: 11.0,
        pressure: 102.7,
        timestamp: 2,
    };

    soa.push(row(a.clone()));
    soa.push(row(b.clone()));

    let got = soa.get(0).unwrap();
    assert_eq!(*got.0, a.temperature);
    assert_eq!(*got.1, a.pressure);
    assert_eq!(*got.2, a.timestamp);

    assert!(soa.get(2).is_none());
}

#[test]
fn soa_iter() {
    let mut soa = SensorReadingSoA::new();
    let a = SensorReading {
        temperature: 10.5,
        pressure: 101.3,
        timestamp: 1,
    };
    let b = SensorReading {
        temperature: 11.0,
        pressure: 102.7,
        timestamp: 2,
    };

    soa.push(row(a.clone()));
    soa.push(row(b.clone()));

    let collected: Vec<SensorReading> = soa
        .iter()
        .into_iter()
        .map(|r| SensorReading {
            temperature: *r.0,
            pressure: *r.1,
            timestamp: *r.2,
        })
        .collect();

    assert_eq!(collected, vec![a, b]);
}

#[test]
fn soa_iter_mut() {
    let mut soa = SensorReadingSoA::new();
    let a = SensorReading {
        temperature: 10.5,
        pressure: 101.3,
        timestamp: 1,
    };
    let b = SensorReading {
        temperature: 11.0,
        pressure: 102.7,
        timestamp: 2,
    };

    soa.push(row(a.clone()));
    soa.push(row(b.clone()));

    for temperature in soa.as_mut_slice().0.iter_mut() {
        *temperature += 1.0;
    }

    assert_eq!(*soa.get(0).unwrap().0, a.temperature + 1.0);
    assert_eq!(*soa.get(1).unwrap().0, b.temperature + 1.0);
}

#[test]
fn soa_basic_accessors_and_slices() {
    let mut soa = SensorReadingSoA::with_capacity(4);
    assert!(soa.is_empty());
    assert!(soa.capacity() >= 4);

    let a = SensorReading {
        temperature: 10.5,
        pressure: 101.3,
        timestamp: 1,
    };
    let b = SensorReading {
        temperature: 11.0,
        pressure: 102.7,
        timestamp: 2,
    };
    let c = SensorReading {
        temperature: 12.0,
        pressure: 103.9,
        timestamp: 3,
    };

    soa.push(row(a.clone()));
    soa.push(row(b.clone()));
    soa.push(row(c.clone()));

    assert!(!soa.is_empty());
    assert_eq!(*soa.first().unwrap().2, a.timestamp);
    assert_eq!(*soa.last().unwrap().2, c.timestamp);
    assert_eq!(*soa.index(1).1, b.pressure);

    let slice = soa.as_slice();
    assert_eq!(slice.0.len(), 3);
    assert_eq!(slice.2[2], c.timestamp);

    let mid = soa.slice(Bound::Included(1), Bound::Included(1));
    assert_eq!(mid.1, [b.pressure]);

    let head = soa.slice(Bound::Unbounded, Bound::Excluded(2));
    assert_eq!(head.0, [a.temperature, b.temperature]);

    let tail = soa.slice(Bound::Included(1), Bound::Unbounded);
    assert_eq!(tail.2, [b.timestamp, c.timestamp]);

    let mut_slice = soa.as_mut_slice();
    mut_slice.0[0] += 1.0;
    assert_eq!(*soa.first().unwrap().0, a.temperature + 1.0);

    let mid_mut = soa.slice_mut(Bound::Included(1), Bound::Excluded(3));
    mid_mut.1[1] += 1.0;
    assert_eq!(*soa.last().unwrap().1, c.pressure + 1.0);
}

#[test]
fn soa_mut_accessors_and_pointers() {
    let mut soa = SensorReadingSoA::new();
    let a = SensorReading {
        temperature: 10.5,
        pressure: 101.3,
        timestamp: 1,
    };
    let b = SensorReading {
        temperature: 11.0,
        pressure: 102.7,
        timestamp: 2,
    };

    soa.push(row(a.clone()));
    soa.push(row(b.clone()));

    assert_eq!(*soa.get_mut(0).unwrap().0, a.temperature);
    *soa.index_mut(1).1 += 1.0;
    assert_eq!(*soa.last().unwrap().1, b.pressure + 1.0);

    *soa.first_mut().unwrap().2 += 10;
    assert_eq!(*soa.get(0).unwrap().2, a.timestamp + 10);

    *soa.last_mut().unwrap().0 += 2.0;
    assert_eq!(*soa.get(1).unwrap().0, b.temperature + 2.0);

    let fields = soa.as_slice();
    assert_eq!(fields.2[0], a.timestamp + 10);

    let fields_mut = soa.as_mut_slice();
    fields_mut.1[0] += 2.0;
    assert_eq!(*soa.get(0).unwrap().1, a.pressure + 2.0);
}

#[test]
fn soa_insert_replace_remove_and_capacity_ops() {
    let mut soa = SensorReadingSoA::new();
    let a = SensorReading {
        temperature: 10.5,
        pressure: 101.3,
        timestamp: 1,
    };
    let b = SensorReading {
        temperature: 11.0,
        pressure: 102.7,
        timestamp: 2,
    };
    let c = SensorReading {
        temperature: 12.0,
        pressure: 103.9,
        timestamp: 3,
    };

    soa.reserve(4);
    assert!(soa.capacity() >= 4);
    soa.reserve_exact(1);

    soa.push(row(a.clone()));
    soa.insert(1, row(b.clone()));
    assert_eq!(soa.len(), 2);
    assert_eq!(*soa.get(1).unwrap().2, b.timestamp);

    let replaced = reading(soa.replace(1, row(c.clone())));
    assert_eq!(replaced, b);
    assert_eq!(*soa.get(1).unwrap().2, c.timestamp);

    let removed = reading(soa.remove(0));
    assert_eq!(removed, a);
    assert_eq!(soa.len(), 1);

    soa.truncate(0);
    assert_eq!(soa.len(), 0);

    soa.push(row(c));
    soa.shrink_to_fit();
    soa.clear();
    assert!(soa.is_empty());
}

#[test]
fn soa_append_split_off_and_sorting() {
    let mut left = SensorReadingSoA::new();
    let mut right = SensorReadingSoA::new();

    left.push(row(SensorReading {
        temperature: 30.0,
        pressure: 110.0,
        timestamp: 3,
    }));
    left.push(row(SensorReading {
        temperature: 10.0,
        pressure: 100.0,
        timestamp: 1,
    }));
    right.push(row(SensorReading {
        temperature: 20.0,
        pressure: 105.0,
        timestamp: 2,
    }));

    left.append(&mut right);
    assert_eq!(left.len(), 3);
    assert!(right.is_empty());

    let split = left.split_off(1);
    assert_eq!(left.len(), 1);
    assert_eq!(split.len(), 2);

    let mut sortable = SensorReadingSoA::new();
    sortable.push(row(SensorReading {
        temperature: 30.0,
        pressure: 110.0,
        timestamp: 3,
    }));
    sortable.push(row(SensorReading {
        temperature: 10.0,
        pressure: 100.0,
        timestamp: 1,
    }));
    sortable.push(row(SensorReading {
        temperature: 20.0,
        pressure: 105.0,
        timestamp: 2,
    }));

    sortable.sort_by(|a, b| a.2.cmp(b.2));
    assert_eq!(*sortable.get(0).unwrap().2, 1);
    assert_eq!(*sortable.get(2).unwrap().2, 3);

    sortable.sort_by_key(|a| *a.0 as i32 as i128);
    assert_eq!(*sortable.get(0).unwrap().0, 10.0);
    assert_eq!(*sortable.get(2).unwrap().0, 30.0);

    let mut manual = SensorReadingSoA::new();
    manual.push(row(SensorReading {
        temperature: 10.0,
        pressure: 100.0,
        timestamp: 1,
    }));
    manual.push(row(SensorReading {
        temperature: 20.0,
        pressure: 105.0,
        timestamp: 2,
    }));
    manual.push(row(SensorReading {
        temperature: 30.0,
        pressure: 110.0,
        timestamp: 3,
    }));
    manual.apply_index(&[2, 0, 1]);
    assert_eq!(*manual.get(0).unwrap().2, 3);
    assert_eq!(*manual.get(1).unwrap().2, 1);
    assert_eq!(*manual.get(2).unwrap().2, 2);
}
