use freq_buffer::item::ITEM_BUFFER_LIMIT;
use freq_buffer::session::reject_body;
use freq_buffer::{ByteReader, Frequency, GzipNBT, ItemStack, Items, Registry, NBT};
use tokio::io::AsyncWriteExt;

fn gzip(raw: &[u8]) -> Vec<u8> {
    let mut enc = async_compression::tokio::write::GzipEncoder::new(Vec::new());
    futures::executor::block_on(enc.write_all(raw)).unwrap();
    futures::executor::block_on(enc.shutdown()).unwrap();
    enc.into_inner()
}

fn dummy() -> ItemStack {
    ItemStack {
        id: "minecraft:stone".into(),
        damage: 0,
        count: 64,
        nbt: Some(NBT::Raw(vec![0, 1, 2, 3])),
    }
}

fn heavy_dummy() -> ItemStack {
    let mut nbt = Vec::new();
    for _ in 0..u8::MAX {
        for b in 0..u8::MAX {
            nbt.push(b);
        }
    }
    ItemStack {
        id: "minecraft:stone".into(),
        damage: 0,
        count: 64,
        nbt: Some(NBT::Extra(Some(GzipNBT::from_gzip(gzip(&nbt))))),
    }
}

fn numbered(i: i32) -> ItemStack {
    ItemStack { id: format!("item{}", i), damage: i, count: 1, nbt: None }
}

fn be_i32s(v: &[i32]) -> Vec<u8> {
    let mut out = Vec::new();
    for x in v {
        out.extend_from_slice(&x.to_be_bytes());
    }
    out
}

#[test]
fn update_items() {
    let is = dummy();
    let mut items = Items::new();
    let mut add_stacks = Vec::new();
    for _ in 0..5 {
        add_stacks.push(is.clone());
    }
    items.insert_items(&mut add_stacks);
    assert_eq!(add_stacks.len(), 0);
    assert_eq!(items.len(), 5);
    for _ in 0..ITEM_BUFFER_LIMIT {
        add_stacks.push(is.clone());
    }
    items.insert_items(&mut add_stacks);
    assert_eq!(add_stacks.len(), 5);
    assert_eq!(items.len(), ITEM_BUFFER_LIMIT);
    let take_items = items.take_items(5);
    assert_eq!(take_items.len(), 5);
    assert_eq!(items.len(), ITEM_BUFFER_LIMIT - 5);
    let old = items.as_slice().to_vec();
    let take_items = items.take_items(ITEM_BUFFER_LIMIT as i32);
    assert_eq!(take_items.len(), ITEM_BUFFER_LIMIT - 5);
    assert_eq!(items.len(), 0);
    assert_eq!(old, take_items);
}

#[test]
fn read_write_item() {
    let src = dummy();
    let mut v = Vec::new();
    src.write(&mut v).unwrap();
    src.write_extra(&mut v).unwrap();
    let r = &mut ByteReader::new(v);
    let mut dst = ItemStack::read(r).unwrap();
    dst.read_extra(r).unwrap();
    assert_eq!(src, dst);
}

#[test]
fn read_write_heavy_item() {
    let src = heavy_dummy();
    let mut v = Vec::new();
    src.write(&mut v).unwrap();
    src.write_extra(&mut v).unwrap();
    let r = &mut ByteReader::new(v);
    let mut dst = ItemStack::read(r).unwrap();
    dst.read_extra(r).unwrap();
    assert_eq!(src, dst);
}

#[test]
fn item_header_bytes_exact() {
    let mut v = Vec::new();
    dummy().write(&mut v).unwrap();
    let mut expected = vec![0u8, 15];
    expected.extend_from_slice(b"minecraft:stone");
    expected.extend_from_slice(&[0, 0, 0, 0, 0, 0, 0, 64, 0, 4, 0, 1, 2, 3]);
    assert_eq!(v, expected);
}

#[test]
fn item_extra_header_is_minus_one() {
    let src = heavy_dummy();
    let mut v = Vec::new();
    src.write(&mut v).unwrap();
    assert_eq!(&v[v.len() - 2..], &[0xff, 0xff]);
    let mut dst = ItemStack::read(&mut ByteReader::new(v)).unwrap();
    assert_eq!(dst.nbt, Some(NBT::Extra(None)));
    dst.nbt = None;
    assert_eq!(dst.count, 64);
}

#[test]
fn item_read_truncated_fails() {
    let mut v = Vec::new();
    dummy().write(&mut v).unwrap();
    v.pop();
    assert!(ItemStack::read(&mut ByteReader::new(v)).is_err());
}

#[test]
fn item_raw_nbt_too_long_is_refused() {
    let s = ItemStack { id: "x".into(), damage: 0, count: 1, nbt: Some(NBT::Raw(vec![7; 0x8000])) };
    let mut v = vec![9u8];
    assert!(s.write(&mut v).is_err());
    assert_eq!(v, vec![9u8]);
}

#[test]
fn take_zero_leaves_buffer() {
    let mut items = Items::new();
    let mut add = vec![numbered(0), numbered(1)];
    items.insert_items(&mut add);
    assert!(items.take_items(0).is_empty());
    assert!(items.take_items(-3).is_empty());
    assert_eq!(items.as_slice(), &[numbered(0), numbered(1)]);
}

#[test]
fn take_more_than_held_returns_all_in_order() {
    let mut items = Items::new();
    let mut add = vec![numbered(0), numbered(1), numbered(2)];
    items.insert_items(&mut add);
    assert_eq!(items.take_items(1), vec![numbered(0)]);
    assert_eq!(items.take_items(10), vec![numbered(1), numbered(2)]);
    assert_eq!(items.len(), 0);
}

#[test]
fn insert_never_exceeds_limit() {
    let mut items = Items::new();
    for round in 0..4 {
        let mut add: Vec<ItemStack> = (0..40).map(|i| numbered(round * 40 + i)).collect();
        items.insert_items(&mut add);
        assert!(items.len() <= ITEM_BUFFER_LIMIT);
    }
    assert_eq!(items.len(), ITEM_BUFFER_LIMIT);
    assert_eq!(items.as_slice()[99], numbered(99));
}

#[test]
fn item_reject_indices_scenario() {
    let mut reg = Registry::new();
    let freq = Frequency("A".into());
    let mut first: Vec<ItemStack> = (0..97).map(numbered).collect();
    reg.insert_items(&freq, &mut first);
    let offer: Vec<ItemStack> = (0..5).map(|i| numbered(1000 + i)).collect();
    let reply = reg.item_from_client(&freq, offer).unwrap();
    let len = i32::from_be_bytes([reply[0], reply[1], reply[2], reply[3]]) as usize;
    assert_eq!(len, reply.len() - 4);
    let mut dec = async_compression::tokio::bufread::GzipDecoder::new(&reply[4..]);
    let mut body = Vec::new();
    futures::executor::block_on(tokio::io::AsyncReadExt::read_to_end(&mut dec, &mut body)).unwrap();
    assert_eq!(body, be_i32s(&[2, 3, 4]));
    assert_eq!(reject_body(5, 3), be_i32s(&[2, 3, 4]));
    let held = &reg.item_buffers()[0].1;
    assert_eq!(held.len(), 100);
    assert_eq!(held.as_slice()[99], numbered(1002));
}

#[test]
fn reject_body_all_accepted() {
    assert_eq!(reject_body(4, 4), be_i32s(&[0]));
    assert_eq!(reject_body(0, 0), be_i32s(&[0]));
}

#[test]
fn nbt_hint_raw_and_gzip() {
    assert_eq!(NBT::Raw(vec![0x0a, 0xff]).hint(), "0AFF");
    assert_eq!(NBT::Extra(None).hint(), "");
    let h = NBT::Extra(Some(GzipNBT::from_gzip(b"abc".to_vec()))).hint();
    assert_eq!(h, "900150983CD24FB0D6963F7D28E17F72");
}

#[test]
fn gzip_nbt_keeps_bytes() {
    let g = GzipNBT::from_gzip(vec![1, 2, 3]);
    assert_eq!(g.as_gzip(), &[1, 2, 3]);
}

#[test]
fn read_extra_negative_length() {
    let mut st = ItemStack { id: "x".into(), damage: 0, count: 1, nbt: Some(NBT::Extra(None)) };
    let r = st.read_extra(&mut ByteReader::new(vec![0xff, 0xff, 0xff, 0xff]));
    assert_eq!(r, Err(freq_buffer::wire::WireError::NegativeLength));
}

#[test]
fn read_extra_without_extra_reads_nothing() {
    let mut st = dummy();
    let mut r = ByteReader::new(vec![1, 2, 3]);
    st.read_extra(&mut r).unwrap();
    assert_eq!(r.pos, 0);
    assert_eq!(st, dummy());
}

#[test]
fn item_request_that_cannot_be_written_keeps_stacks() {
    let mut reg = Registry::new();
    let freq = Frequency("W".into());
    let big = ItemStack { id: "x".into(), damage: 0, count: 1, nbt: Some(NBT::Raw(vec![1; 0x8000])) };
    let mut add = vec![numbered(0), big.clone()];
    reg.insert_items(&freq, &mut add);
    assert!(reg.item_to_client(&freq, 5).is_err());
    assert_eq!(reg.item_buffers()[0].1.as_slice(), &[numbered(0), big]);
    let reply = reg.item_to_client(&freq, 1).unwrap();
    assert!(reply.len() > 4);
    assert_eq!(reg.item_buffers()[0].1.len(), 1);
}

#[test]
fn item_header_odd_nbt_length_reads_no_nbt() {
    let mut v = Vec::new();
    freq_buffer::write_string(&mut v, "x").unwrap();
    v.extend_from_slice(&[0, 0, 0, 1, 0, 0, 0, 2, 0xff, 0xfe]);
    let mut r = ByteReader::new(v);
    let s = ItemStack::read(&mut r).unwrap();
    assert_eq!(s, ItemStack { id: "x".into(), damage: 1, count: 2, nbt: None });
    assert!(r.at_end());
}

#[test]
fn item_header_short_raw_nbt_fails() {
    let mut v = Vec::new();
    freq_buffer::write_string(&mut v, "x").unwrap();
    v.extend_from_slice(&[0, 0, 0, 1, 0, 0, 0, 2, 0, 3, 9, 9]);
    assert!(ItemStack::read(&mut ByteReader::new(v)).is_err());
}
