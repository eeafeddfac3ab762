use freq_buffer::snapshot::SnapshotError;
use freq_buffer::{load, save, FluidStack, Frequency, GzipNBT, ItemStack, Registry, NBT};
use tokio::io::AsyncWriteExt;

fn gzip(raw: &[u8]) -> Vec<u8> {
    let mut enc = async_compression::tokio::write::GzipEncoder::new(Vec::new());
    futures::executor::block_on(enc.write_all(raw)).unwrap();
    futures::executor::block_on(enc.shutdown()).unwrap();
    enc.into_inner()
}

fn item_dummy() -> ItemStack {
    ItemStack {
        id: "minecraft:stone".into(),
        damage: 0,
        count: 64,
        nbt: Some(NBT::Raw(vec![0, 1, 2, 3])),
    }
}

fn heavy_item_dummy() -> ItemStack {
    let mut nbt = Vec::new();
    for _ in 0..u8::MAX {
        for b in 0..u8::MAX {
            nbt.push(b);
        }
    }
    ItemStack {
        id: "minecraft:stone".into(),
        damage: 0,
        count: 64,
        nbt: Some(NBT::Extra(Some(GzipNBT::from_gzip(gzip(&nbt))))),
    }
}

fn fluid_dummy() -> FluidStack {
    FluidStack::new("water".to_string(), i32::MAX as i64 + 100, Some(vec![0, 1, 2, 3]))
}

fn registry_dummy() -> Registry {
    let mut go = Registry::new();
    go.insert_items(&Frequency("RED, RED, RED".into()), &mut vec![item_dummy()]);
    go.insert_items(&Frequency("WHITE, BLUE, WHITE".into()), &mut vec![heavy_item_dummy()]);
    go.insert_fluid(&Frequency("RED, RED, RED".into()), fluid_dummy());
    go.merge_energy(Frequency("WHITE, WHITE, WHITE".into()), u32::MAX as i64 + 500);
    go
}

fn items_sorted(go: &Registry) -> Vec<(Frequency, Vec<ItemStack>)> {
    let mut v: Vec<(Frequency, Vec<ItemStack>)> =
        go.item_buffers().iter().map(|(f, items)| (f.clone(), items.as_slice().to_vec())).collect();
    v.sort_by(|(a, _), (b, _)| a.0.cmp(&b.0));
    v
}

fn fluids_sorted(go: &Registry) -> Vec<(Frequency, Vec<FluidStack>)> {
    let mut v: Vec<(Frequency, Vec<FluidStack>)> =
        go.fluid_buffers().iter().map(|(f, fl)| (f.clone(), fl.as_slice().to_vec())).collect();
    v.sort_by(|(a, _), (b, _)| a.0.cmp(&b.0));
    v
}

fn section_string(out: &mut Vec<u8>, s: &str) {
    out.extend_from_slice(&(s.len() as u16).to_be_bytes());
    out.extend_from_slice(s.as_bytes());
}

fn energy_only_snapshot(version: i64, freq: &str, value: i64) -> Vec<u8> {
    let mut body = Vec::new();
    body.extend_from_slice(&version.to_be_bytes());
    body.extend_from_slice(&0i32.to_be_bytes());
    body.extend_from_slice(&0i32.to_be_bytes());
    body.extend_from_slice(&1i32.to_be_bytes());
    section_string(&mut body, freq);
    body.extend_from_slice(&value.to_be_bytes());
    gzip(&body)
}

#[test]
fn save_load() {
    let src = registry_dummy();
    let v = save(&src).unwrap();
    let mut dst = Registry::new();
    load(&mut dst, &v).unwrap();
    assert_eq!(src.energy_buffers().to_vec(), dst.energy_buffers().to_vec());
    assert_eq!(items_sorted(&src), items_sorted(&dst));
    assert_eq!(fluids_sorted(&src), fluids_sorted(&dst));
}

#[test]
fn snapshot_body_starts_with_version_three() {
    let body = registry_dummy().save_body().unwrap();
    assert_eq!(&body[0..8], &3i64.to_be_bytes());
}

#[test]
fn snapshot_version_two_loads() {
    let mut body = Vec::new();
    body.extend_from_slice(&2i64.to_be_bytes());
    body.extend_from_slice(&1i32.to_be_bytes());
    section_string(&mut body, "F");
    body.extend_from_slice(&1i32.to_be_bytes());
    section_string(&mut body, "lava");
    body.extend_from_slice(&7i64.to_be_bytes());
    body.extend_from_slice(&0i16.to_be_bytes());
    body.extend_from_slice(&1i32.to_be_bytes());
    section_string(&mut body, "I");
    body.extend_from_slice(&2i32.to_be_bytes());
    section_string(&mut body, "stone");
    body.extend_from_slice(&0i32.to_be_bytes());
    body.extend_from_slice(&3i32.to_be_bytes());
    body.extend_from_slice(&0i16.to_be_bytes());
    section_string(&mut body, "dirt");
    body.extend_from_slice(&1i32.to_be_bytes());
    body.extend_from_slice(&5i32.to_be_bytes());
    body.extend_from_slice(&2i16.to_be_bytes());
    body.extend_from_slice(&[9, 9]);
    body.extend_from_slice(&1i32.to_be_bytes());
    section_string(&mut body, "E");
    body.extend_from_slice(&42i64.to_be_bytes());
    let mut reg = Registry::new();
    load(&mut reg, &gzip(&body)).unwrap();
    assert_eq!(reg.energy_buffers().to_vec(), vec![(Frequency("E".into()), 42)]);
    let items = reg.item_buffers()[0].1.as_slice().to_vec();
    assert_eq!(items.len(), 2);
    assert_eq!(items[1].nbt, Some(NBT::Raw(vec![9, 9])));
    assert_eq!(reg.fluid_buffers()[0].1.as_slice()[0], FluidStack::new("lava".into(), 7, None));
}

#[test]
fn snapshot_bad_version_is_refused() {
    let mut reg = Registry::new();
    let r = load(&mut reg, &energy_only_snapshot(4, "A", 1));
    assert_eq!(r, Err(SnapshotError::BadVersion));
    assert!(reg.energy_buffers().is_empty());
}

#[test]
fn snapshot_not_gzip_is_refused() {
    let mut reg = Registry::new();
    assert_eq!(load(&mut reg, &[1, 2, 3, 4]), Err(SnapshotError::Gzip));
}

#[test]
fn snapshot_truncated_leaves_registry() {
    let mut reg = Registry::new();
    reg.merge_energy(Frequency("A".into()), 5);
    let mut body = registry_dummy().save_body().unwrap();
    body.truncate(body.len() - 3);
    assert!(reg.load_body(body).is_err());
    assert_eq!(reg.energy_buffers().to_vec(), vec![(Frequency("A".into()), 5)]);
}

#[test]
fn merge_on_load_energy() {
    let mut reg = Registry::new();
    reg.merge_energy(Frequency("A".into()), 100);
    load(&mut reg, &energy_only_snapshot(3, "A", 200)).unwrap();
    assert_eq!(reg.energy_buffers().to_vec(), vec![(Frequency("A".into()), 300)]);

    let mut full = Registry::new();
    full.merge_energy(Frequency("A".into()), i64::MAX);
    load(&mut full, &energy_only_snapshot(3, "A", i64::MAX)).unwrap();
    assert_eq!(full.energy_buffers().to_vec(), vec![(Frequency("A".into()), i64::MAX)]);
}

#[test]
fn merge_on_load_items_and_fluids() {
    let src = registry_dummy();
    let bytes = save(&src).unwrap();
    let mut dst = Registry::new();
    let extra = ItemStack { id: "old".into(), damage: 1, count: 1, nbt: None };
    dst.insert_items(&Frequency("RED, RED, RED".into()), &mut vec![extra.clone()]);
    dst.insert_fluid(&Frequency("RED, RED, RED".into()), fluid_dummy());
    load(&mut dst, &bytes).unwrap();
    let red = dst
        .item_buffers()
        .iter()
        .find(|(f, _)| f.0 == "RED, RED, RED")
        .unwrap()
        .1
        .as_slice()
        .to_vec();
    assert_eq!(red, vec![item_dummy(), extra]);
    let fl = dst.fluid_buffers()[0].1.as_slice().to_vec();
    assert_eq!(fl.len(), 1);
    assert_eq!(fl[0].count, 2 * (i32::MAX as i64 + 100));
}
