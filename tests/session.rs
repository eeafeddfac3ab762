use freq_buffer::session::{Command, MetaUpdate, Request, Session, SessionError, CLIENT_VERSION};
use freq_buffer::wire::{write_i32, write_i64, WireError};
use freq_buffer::{write_string, ByteReader, FluidStack, Frequency, ItemStack, Registry};
use freq_buffer::session::read_request;
use tokio::io::AsyncWriteExt;

fn gzip(raw: &[u8]) -> Vec<u8> {
    let mut enc = async_compression::tokio::write::GzipEncoder::new(Vec::new());
    futures::executor::block_on(enc.write_all(raw)).unwrap();
    futures::executor::block_on(enc.shutdown()).unwrap();
    enc.into_inner()
}

fn serve_bytes(reg: &mut Registry, s: &mut Session, bytes: Vec<u8>) -> Result<Vec<u8>, SessionError> {
    let mut r = ByteReader::new(bytes);
    let req = read_request(&mut r)?;
    assert!(r.at_end());
    reg.serve(s, req).map(|x| x.bytes)
}

#[test]
fn command_bytes() {
    assert_eq!(Command::from_i8(-1), Some(Command::Nop));
    assert_eq!(Command::from_i8(1), Some(Command::SetFrequency));
    assert_eq!(Command::from_i8(10), Some(Command::PackEnd));
    assert_eq!(Command::from_i8(0), None);
    assert_eq!(Command::from_i8(11), None);
    assert_eq!(CLIENT_VERSION, 7);
}

#[test]
fn unknown_command_ends_session() {
    let r = read_request(&mut ByteReader::new(vec![42]));
    assert!(matches!(r, Err(SessionError::UnknownCommand(42))));
    let r = read_request(&mut ByteReader::new(vec![]));
    assert!(matches!(r, Err(SessionError::Wire(WireError::Truncated))));
}

#[test]
fn transfer_without_frequency_fails() {
    let mut reg = Registry::new();
    let mut s = Session::new();
    let mut b = vec![7u8];
    write_i64(&mut b, 5);
    assert!(matches!(serve_bytes(&mut reg, &mut s, b), Err(SessionError::NoFrequency)));
}

#[test]
fn energy_round_through_session() {
    let mut reg = Registry::new();
    let mut s = Session::new();
    let mut b = vec![1u8];
    write_string(&mut b, "X").unwrap();
    assert_eq!(serve_bytes(&mut reg, &mut s, b).unwrap(), Vec::<u8>::new());
    assert_eq!(s.freq, Some(Frequency("X".into())));
    let mut b = vec![6u8];
    write_i64(&mut b, 30);
    assert_eq!(serve_bytes(&mut reg, &mut s, b).unwrap(), 0i64.to_be_bytes().to_vec());
    let mut b = vec![7u8];
    write_i64(&mut b, 100);
    assert_eq!(serve_bytes(&mut reg, &mut s, b).unwrap(), 30i64.to_be_bytes().to_vec());
}

#[test]
fn meta_requests() {
    let mut reg = Registry::new();
    let mut s = Session::new();
    let mut b = vec![8u8];
    write_string(&mut b, "host").unwrap();
    let req = read_request(&mut ByteReader::new(b)).unwrap();
    let reply = reg.serve(&mut s, req).unwrap();
    assert_eq!(reply.meta, MetaUpdate::HostName("host".into()));
    let reply = reg.serve(&mut s, Request::PackStart).unwrap();
    assert_eq!(reply.meta, MetaUpdate::PackStart);
    let reply = reg.serve(&mut s, Request::Nop).unwrap();
    assert_eq!(reply.meta, MetaUpdate::Unchanged);
}

#[test]
fn item_offer_and_request_through_session() {
    let mut reg = Registry::new();
    let mut s = Session { freq: Some(Frequency("I".into())) };
    let stack = ItemStack { id: "stone".into(), damage: 0, count: 3, nbt: None };
    let mut block = Vec::new();
    write_i32(&mut block, 1);
    stack.write(&mut block).unwrap();
    let gz = gzip(&block);
    let mut b = vec![2u8];
    write_i32(&mut b, gz.len() as i32);
    b.extend_from_slice(&gz);
    let reply = serve_bytes(&mut reg, &mut s, b).unwrap();
    assert!(reply.len() > 4);
    assert_eq!(reg.item_buffers()[0].1.as_slice(), &[stack.clone()]);
    let mut b = vec![3u8];
    write_i32(&mut b, 10);
    let reply = serve_bytes(&mut reg, &mut s, b).unwrap();
    let len = i32::from_be_bytes([reply[0], reply[1], reply[2], reply[3]]) as usize;
    assert_eq!(reply.len(), 4 + len);
    assert_eq!(reg.item_buffers()[0].1.len(), 0);
}

#[test]
fn item_request_unknown_frequency_replies_zero() {
    let mut reg = Registry::new();
    let mut s = Session { freq: Some(Frequency("none".into())) };
    assert_eq!(reg.serve(&mut s, Request::ItemToClient(5)).unwrap().bytes, vec![0, 0, 0, 0]);
}

#[test]
fn fluid_through_session() {
    let mut reg = Registry::new();
    let mut s = Session { freq: Some(Frequency("F".into())) };
    let mut b = vec![4u8];
    FluidStack::new("lava".into(), 10, None).write(&mut b).unwrap();
    assert!(serve_bytes(&mut reg, &mut s, b).unwrap().is_empty());
    let mut b = vec![5u8];
    FluidStack::new("".into(), 4, None).write(&mut b).unwrap();
    let reply = serve_bytes(&mut reg, &mut s, b).unwrap();
    let mut payload = Vec::new();
    FluidStack::new("lava".into(), 4, None).write(&mut payload).unwrap();
    let mut expected = (payload.len() as i32).to_be_bytes().to_vec();
    expected.extend_from_slice(&payload);
    assert_eq!(reply, expected);
    let mut b = vec![5u8];
    FluidStack::new("water".into(), 4, None).write(&mut b).unwrap();
    assert_eq!(serve_bytes(&mut reg, &mut s, b).unwrap(), vec![0, 0, 0, 0]);
}

#[test]
fn item_offer_with_bad_gzip_block() {
    let mut b = vec![2u8];
    write_i32(&mut b, 3);
    b.extend_from_slice(&[1, 2, 3]);
    let r = read_request(&mut ByteReader::new(b));
    assert!(matches!(r, Err(SessionError::Gzip)));
}

#[test]
fn item_offer_with_short_block() {
    let mut block = Vec::new();
    write_i32(&mut block, 2);
    let gz = gzip(&block);
    let mut b = vec![2u8];
    write_i32(&mut b, gz.len() as i32);
    b.extend_from_slice(&gz);
    let r = read_request(&mut ByteReader::new(b));
    assert!(matches!(r, Err(SessionError::BadBlock)));
}

#[test]
fn item_offer_with_negative_length() {
    let mut b = vec![2u8];
    write_i32(&mut b, -1);
    let r = read_request(&mut ByteReader::new(b));
    assert!(matches!(r, Err(SessionError::Wire(WireError::NegativeLength))));
}

#[test]
fn energy_overflow_ends_session() {
    let mut reg = Registry::new();
    reg.merge_energy(Frequency("A".into()), i64::MIN + 1);
    let mut s = Session { freq: Some(Frequency("A".into())) };
    let r = reg.serve(&mut s, Request::EnergyFromClient(1));
    assert!(matches!(r, Err(SessionError::EnergyOverflow)));
}
