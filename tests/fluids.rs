use freq_buffer::{ByteReader, FluidId, FluidStack, Fluids, Frequency, Registry};

fn dummy() -> FluidStack {
    FluidStack::new("water".to_string(), i32::MAX as i64 + 100, Some(vec![0, 1, 2, 3]))
}

fn any() -> FluidStack {
    FluidStack::new("".to_string(), i32::MAX as i64 + 100, None)
}

#[test]
fn update_fluids() {
    let mut fluids = Fluids::new();
    fluids.insert_fluid(dummy());
    assert_eq!(fluids.len(), 1);
    fluids.insert_fluid(dummy());
    assert_eq!(fluids.len(), 1);
    assert_eq!(fluids.take_fluid(dummy()), Some(dummy()));
    assert_eq!(fluids.as_slice().first().cloned(), Some(dummy()));
    assert_eq!(fluids.take_fluid(any()), Some(dummy()));
    fluids.insert_fluid(dummy());
    fluids.insert_fluid(dummy());
    assert_ne!(fluids.as_slice().first().cloned(), Some(dummy()));
}

#[test]
fn read_write_fluid() {
    let src = dummy();
    let mut v = Vec::new();
    src.write(&mut v).unwrap();
    let dst = FluidStack::read(&mut ByteReader::new(v)).unwrap();
    assert_eq!(src, dst);
}

#[test]
fn fluid_id_is_name_and_md5_hex() {
    let id = FluidId::new("lava".to_string(), Some(b"abc".as_slice()));
    assert_eq!(id.0, "lava900150983CD24FB0D6963F7D28E17F72");
    assert_eq!(FluidId::new("lava".to_string(), None).0, "lava");
}

#[test]
fn fluid_saturating_merge() {
    let mut fluids = Fluids::new();
    fluids.insert_fluid(FluidStack::new("oil".into(), i64::MAX - 1, None));
    fluids.insert_fluid(FluidStack::new("oil".into(), 5, None));
    assert_eq!(fluids.len(), 1);
    assert_eq!(fluids.as_slice()[0].count, i64::MAX);
    let mut small = Fluids::new();
    small.insert_fluid(FluidStack::new("oil".into(), 3, None));
    small.insert_fluid(FluidStack::new("oil".into(), 4, None));
    assert_eq!(small.as_slice()[0].count, 7);
}

#[test]
fn fluid_wildcard_on_empty_is_none() {
    let mut fluids = Fluids::new();
    assert_eq!(fluids.take_fluid(any()), None);
    assert_eq!(fluids.len(), 0);
}

#[test]
fn fluid_wildcard_scenario() {
    let mut reg = Registry::new();
    let freq = Frequency("A".into());
    reg.insert_fluid(&freq, FluidStack::new("lava".into(), 10, None));
    let got = reg.take_fluid(&freq, FluidStack::new("".into(), 4, None)).unwrap();
    assert_eq!(got, FluidStack::new("lava".into(), 4, None));
    assert_eq!(reg.fluid_buffers()[0].1.as_slice()[0].count, 6);
}

#[test]
fn fluid_take_removes_drained_entry() {
    let mut fluids = Fluids::new();
    fluids.insert_fluid(FluidStack::new("lava".into(), 3, None));
    let got = fluids.take_fluid(FluidStack::new("lava".into(), 100, None)).unwrap();
    assert_eq!(got.count, 3);
    assert_eq!(fluids.len(), 0);
}

#[test]
fn fluid_take_non_positive_is_none() {
    let mut fluids = Fluids::new();
    fluids.insert_fluid(FluidStack::new("lava".into(), 3, None));
    assert_eq!(fluids.take_fluid(FluidStack::new("lava".into(), 0, None)), None);
    assert_eq!(fluids.take_fluid(FluidStack::new("water".into(), 2, None)), None);
    assert_eq!(fluids.as_slice()[0].count, 3);
}

#[test]
fn fluid_bytes_exact() {
    let mut v = Vec::new();
    FluidStack::new("ab".into(), 258, None).write(&mut v).unwrap();
    assert_eq!(v, vec![0, 2, b'a', b'b', 0, 0, 0, 0, 0, 0, 1, 2, 0, 0]);
}
