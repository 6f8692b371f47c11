use sudachi::dic::build::error::DicWriteResult;
use sudachi::dic::build::primitives::Utf16Writer;
use sudachi::dic::build::primitives::write_u32_array;
use sudachi::dic::read::{u32_array_parser, utf16_string_parser};

#[test]
fn write_utf16() {
    let mut writer = Utf16Writer::new();
    let mut data: Vec<u8> = Vec::new();
    writer
        .write(&mut data, "これはテスト文です")
        .expect("success");
    let (remaining, parsed) = utf16_string_parser(&data).expect("parsed");
    assert_eq!(0, remaining.len());
    assert_eq!("これはテスト文です", parsed);
}

#[test]
fn write_strings() -> DicWriteResult<()> {
    let mut writer = Utf16Writer::new();
    let mut data: Vec<u8> = Vec::new();

    let xstr = "";
    let mut w = writer.write(&mut data, xstr)?;
    assert_eq!(data.len(), w);
    let ystr = "あ𠮟";
    w += writer.write(&mut data, ystr)?;
    assert_eq!(data.len(), w);
    let zstr = "0123456789".repeat(15); // > 127 symbols
    w += writer.write(&mut data, &zstr)?;
    assert_eq!(data.len(), w);
    let (rem, parsed) = utf16_string_parser(&data).expect("ok");
    assert_eq!(parsed, xstr);
    let (rem, parsed) = utf16_string_parser(rem).expect("ok");
    assert_eq!(parsed, ystr);
    let (rem, parsed) = utf16_string_parser(rem).expect("ok");
    assert_eq!(parsed, zstr);
    assert_eq!(rem.len(), 0);

    Ok(())
}

#[test]
fn write_ints_empty() {
    let mut data: Vec<u8> = Vec::new();
    let written = write_u32_array(&mut data, &[0u32; 0]).expect("ok");
    assert_eq!(written, 1);
    assert_eq!(data, b"\0");
}

#[test]
fn write_ints_full() {
    let mut data: Vec<u8> = Vec::new();
    let array = [0, 5, u32::MAX, u32::MIN];
    let written = write_u32_array(&mut data, &array).expect("ok");
    let (rem, parsed) = u32_array_parser(&data).expect("ok");
    assert_eq!(rem, b"");
    assert_eq!(parsed, array);
    assert_eq!(written, 4 * 4 + 1);
}

#[test]
fn write_ints_over_length() {
    let mut data: Vec<u8> = Vec::new();
    let array = [0u32; 130];
    let status = write_u32_array(&mut data, &array);
    assert!(matches!(status, Err(_)));
}
