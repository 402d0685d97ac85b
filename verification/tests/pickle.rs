use octopus_log::pickle::{read_u8, read_u16, read_u32, read_v32, Error};

#[test]
fn test_read_u8() {
    let data: Vec<u8> = vec![1, 2];
    let mut pos: usize = 0;
    assert_eq!(Ok(1), read_u8(&data, &mut pos));
    assert_eq!(Ok(2), read_u8(&data, &mut pos));
    assert_eq!(Err(Error::Short), read_u8(&data, &mut pos));
    assert_eq!(0, data.len() - pos);
}

#[test]
fn test_read_u16() {
    let data: Vec<u8> = vec![1, 2, 3, 4];
    let mut pos: usize = 0;
    assert_eq!(Ok(0x0201), read_u16(&data, &mut pos));
    assert_eq!(Ok(0x0403), read_u16(&data, &mut pos));
    assert_eq!(Err(Error::Short), read_u16(&data, &mut pos));
    assert_eq!(0, data.len() - pos);
}

#[test]
fn test_read_u32() {
    let data: Vec<u8> = vec![1, 2, 3, 4];
    let mut pos: usize = 0;
    assert_eq!(Ok(0x04030201), read_u32(&data, &mut pos));
    assert_eq!(Err(Error::Short), read_u32(&data, &mut pos));
    assert_eq!(0, data.len() - pos);
}

#[test]
fn test_read_v32_1() {
    let data: Vec<u8> = vec![1, 2];
    let mut pos: usize = 0;
    assert_eq!(Ok(0x01), read_v32(&data, &mut pos));
    assert_eq!(Ok(0x02), read_v32(&data, &mut pos));
    assert_eq!(Err(Error::Short), read_v32(&data, &mut pos));
    assert_eq!(0, data.len() - pos);
}

#[test]
fn test_read_v32_2() {
    let data: Vec<u8> = vec![0xff, 0xff, 0xff, 0xff];
    let mut pos: usize = 0;
    assert_eq!(Err(Error::Short), read_v32(&data, &mut pos));
}

#[test]
fn test_read_v32_3() {
    let data: Vec<u8> = vec![0xff, 0xff, 0xff, 0xff, 0xff];
    let mut pos: usize = 0;
    assert_eq!(Err(Error::Overflow), read_v32(&data, &mut pos));
}

#[test]
fn test_read_v32_4() {
    let data: Vec<u8> = vec![0xff, 0xff, 0xff, 0xff, 0x80];
    let mut pos: usize = 0;
    assert_eq!(Err(Error::Overflow), read_v32(&data, &mut pos));
}

#[test]
fn test_read_v32_6() {
    let data: Vec<u8> = vec![0x80, 0x80, 0x80, 0x80, 0x80];
    let mut pos: usize = 0;
    assert_eq!(Err(Error::Overflow), read_v32(&data, &mut pos));
}

#[test]
fn test_read_v32_7() {
    let data: Vec<u8> = vec![0x80, 0x80, 0x80, 0x80, 0];
    let mut pos: usize = 0;
    assert_eq!(Ok(0), read_v32(&data, &mut pos));
}

#[test]
fn test_read_v32_8() {
    let data: Vec<u8> = vec![0x8f, 0xff, 0xff, 0xff, 0x7f];
    let mut pos: usize = 0;
    assert_eq!(Ok(0xffffffff), read_v32(&data, &mut pos));
}
