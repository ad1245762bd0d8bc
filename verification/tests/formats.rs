use jsonb_schema::schema::{decode, encode, InstanceType, Schema, SingleOrVec};
use jsonb_schema::Value;

fn string_schema(format: &str) -> Schema {
    Schema {
        instance_type: Some(SingleOrVec::Single(InstanceType::String)),
        format: Some(format.to_string()),
        ..Schema::default()
    }
}

fn encoded(format: &str, text: &str) -> (Vec<u8>, Value) {
    let schema = string_schema(format);
    let value = Value::String(text.to_string());
    let mut buf = Vec::new();
    encode(&value, &schema, &mut buf);
    let decoded = decode(&buf, &schema);
    (buf, decoded)
}

#[test]
fn test_format_date_compression() {
    let (buf, decoded) = encoded("date", "2023-10-25");
    assert_eq!(buf.len(), 5);
    assert_eq!(buf[0], 0x01);
    assert_eq!(buf[1], 0x07);
    assert_eq!(buf[2], 0xE7);
    assert_eq!(buf[3], 10);
    assert_eq!(buf[4], 25);
    assert_eq!(decoded, Value::String("2023-10-25".to_string()));
}

#[test]
fn test_format_date_fallback() {
    let (buf, decoded) = encoded("date", "not-a-date");
    assert_eq!(buf.len(), 12);
    assert_eq!(buf[0], 0x00);
    assert_eq!(buf[1], 10);
    assert_eq!(decoded, Value::String("not-a-date".to_string()));
}

#[test]
fn test_format_date_empty() {
    let (buf, decoded) = encoded("date", "");
    assert_eq!(buf.len(), 2);
    assert_eq!(buf[0], 0x00);
    assert_eq!(buf[1], 0x00);
    assert_eq!(decoded, Value::String(String::new()));
}

#[test]
fn test_format_time_compression_z() {
    let (buf, decoded) = encoded("time", "20:20:39Z");
    assert_eq!(buf.len(), 11);
    assert_eq!(buf[0], 0x02);
    assert_eq!(buf[1], 20);
    assert_eq!(buf[2], 20);
    assert_eq!(buf[3], 39);
    assert_eq!(buf[4], 0);
    assert_eq!(buf[5], 0);
    assert_eq!(buf[6], 0);
    assert_eq!(buf[7], 0);
    assert_eq!(buf[8], 0);
    assert_eq!(buf[9], 0);
    assert_eq!(buf[10], 0);
    assert_eq!(decoded, Value::String("20:20:39Z".to_string()));
}

#[test]
fn test_format_time_compression_offset() {
    let (buf, decoded) = encoded("time", "20:20:39.4+03:30");
    assert_eq!(buf.len(), 11);
    assert_eq!(buf[0], 0x02);
    assert_eq!(buf[4], 0x17);
    assert_eq!(buf[5], 0xD7);
    assert_eq!(buf[6], 0x84);
    assert_eq!(buf[7], 0x00);
    assert_eq!(buf[8], 1);
    assert_eq!(buf[9], 3);
    assert_eq!(buf[10], 30);
    assert_eq!(decoded, Value::String("20:20:39.4+03:30".to_string()));
}

#[test]
fn test_format_time_fallback() {
    let (buf, decoded) = encoded("time", "invalid-time");
    assert_eq!(buf.len(), 14);
    assert_eq!(buf[0], 0x00);
    assert_eq!(decoded, Value::String("invalid-time".to_string()));
}

#[test]
fn test_format_date_time_compression_z() {
    let (buf, decoded) = encoded("date-time", "2023-10-25T20:20:39Z");
    assert_eq!(buf.len(), 15);
    assert_eq!(buf[0], 0x03);
    assert_eq!(buf[1], 0x07);
    assert_eq!(buf[2], 0xE7);
    assert_eq!(buf[3], 10);
    assert_eq!(buf[4], 25);
    assert_eq!(buf[5], 20);
    assert_eq!(buf[6], 20);
    assert_eq!(buf[7], 39);
    assert_eq!(buf[12], 0);
    assert_eq!(decoded, Value::String("2023-10-25T20:20:39Z".to_string()));
}

#[test]
fn test_format_date_time_compression_offset() {
    let (buf, decoded) = encoded("date-time", "2023-10-25T20:20:39.4+03:30");
    assert_eq!(buf.len(), 15);
    assert_eq!(buf[0], 0x03);
    assert_eq!(buf[1], 0x07);
    assert_eq!(buf[2], 0xE7);
    assert_eq!(buf[3], 10);
    assert_eq!(buf[4], 25);
    assert_eq!(buf[5], 20);
    assert_eq!(buf[6], 20);
    assert_eq!(buf[7], 39);
    assert_eq!(buf[8], 0x17);
    assert_eq!(buf[12], 1);
    assert_eq!(buf[13], 3);
    assert_eq!(buf[14], 30);
    assert_eq!(decoded, Value::String("2023-10-25T20:20:39.4+03:30".to_string()));
}

#[test]
fn test_format_date_time_fallback() {
    let (buf, decoded) = encoded("date-time", "not-a-datetime");
    assert_eq!(buf.len(), 16);
    assert_eq!(buf[0], 0x00);
    assert_eq!(decoded, Value::String("not-a-datetime".to_string()));
}

#[test]
fn test_format_ipv4_compression() {
    let (buf, decoded) = encoded("ipv4", "192.168.1.1");
    assert_eq!(buf.len(), 5);
    assert_eq!(buf[0], 0x04);
    assert_eq!(buf[1], 192);
    assert_eq!(buf[2], 168);
    assert_eq!(buf[3], 1);
    assert_eq!(buf[4], 1);
    assert_eq!(decoded, Value::String("192.168.1.1".to_string()));
}

#[test]
fn test_format_ipv4_fallback() {
    let (buf, decoded) = encoded("ipv4", "999.999.999.999");
    assert_eq!(buf[0], 0x00);
    assert_eq!(decoded, Value::String("999.999.999.999".to_string()));
}

#[test]
fn test_format_ipv6_compression() {
    let (buf, decoded) = encoded("ipv6", "2001:db8::1");
    assert_eq!(buf.len(), 17);
    assert_eq!(buf[0], 0x05);
    assert_eq!(buf[1], 0x20);
    assert_eq!(buf[2], 0x01);
    assert_eq!(buf[3], 0x0D);
    assert_eq!(buf[4], 0xB8);
    assert_eq!(buf[16], 0x01);
    assert_eq!(decoded, Value::String("2001:db8::1".to_string()));
}

#[test]
fn test_format_ipv6_fallback() {
    let (buf, decoded) = encoded("ipv6", "not-an-ipv6-address");
    assert_eq!(buf[0], 0x00);
    assert_eq!(decoded, Value::String("not-an-ipv6-address".to_string()));
}

#[test]
fn test_format_uuid_compression() {
    let (buf, decoded) = encoded("uuid", "123e4567-e89b-12d3-a456-426614174000");
    assert_eq!(buf.len(), 17);
    assert_eq!(buf[0], 0x06);
    assert_eq!(buf[1], 0x12);
    assert_eq!(buf[2], 0x3e);
    assert_eq!(buf[3], 0x45);
    assert_eq!(buf[4], 0x67);
    assert_eq!(decoded, Value::String("123e4567-e89b-12d3-a456-426614174000".to_string()));
}

#[test]
fn test_format_uuid_fallback() {
    let (buf, decoded) = encoded("uuid", "not-a-uuid");
    assert_eq!(buf[0], 0x00);
    assert_eq!(decoded, Value::String("not-a-uuid".to_string()));
}

#[test]
fn ipv4_leading_zero_is_not_compressed() {
    let (buf, decoded) = encoded("ipv4", "192.168.01.1");
    assert_eq!(buf[0], 0x00);
    assert_eq!(decoded, Value::String("192.168.01.1".to_string()));
}

#[test]
fn ipv6_renders_the_longest_zero_run() {
    let (buf, decoded) = encoded("ipv6", "1:0:0:2:0:0:0:3");
    assert_eq!(buf[0], 0x05);
    assert_eq!(decoded, Value::String("1:0:0:2::3".to_string()));
    let (buf, decoded) = encoded("ipv6", "::");
    assert_eq!(buf.len(), 17);
    assert_eq!(decoded, Value::String("::".to_string()));
    let (_, decoded) = encoded("ipv6", "FE80:0:0:0:0:0:0:1");
    assert_eq!(decoded, Value::String("fe80::1".to_string()));
}

#[test]
fn ipv6_with_too_many_groups_is_not_compressed() {
    let (buf, _) = encoded("ipv6", "1::2:3:4:5:6:7:8");
    assert_eq!(buf[0], 0x00);
    let (buf, _) = encoded("ipv6", "12345::1");
    assert_eq!(buf[0], 0x00);
}

#[test]
fn uuid_renders_lowercase() {
    let (buf, decoded) = encoded("uuid", "123E4567E89B12D3A456426614174000");
    assert_eq!(buf[0], 0x06);
    assert_eq!(decoded, Value::String("123e4567-e89b-12d3-a456-426614174000".to_string()));
}

#[test]
fn time_fraction_keeps_its_significant_digits() {
    let (buf, decoded) = encoded("time", "01:02:03.000123-07:00");
    assert_eq!(buf[0], 0x02);
    assert_eq!(buf[8], 2);
    assert_eq!(decoded, Value::String("01:02:03.000123-07:00".to_string()));
}

#[test]
fn offset_out_of_range_is_not_compressed() {
    let (buf, _) = encoded("time", "01:02:03+24:00");
    assert_eq!(buf[0], 0x00);
}

#[test]
fn unknown_format_writes_plain_string() {
    let (buf, decoded) = encoded("email", "a@b.c");
    assert_eq!(buf[0], 5);
    assert_eq!(buf.len(), 6);
    assert_eq!(decoded, Value::String("a@b.c".to_string()));
}

#[test]
fn negative_year_is_not_compressed() {
    let (buf, decoded) = encoded("date", "-000001-01-01");
    assert_eq!(buf[0], 0x00);
    assert_eq!(decoded, Value::String("-000001-01-01".to_string()));
}

#[test]
fn ipv6_with_a_dotted_ipv4_tail_is_compressed() {
    let (buf, decoded) = encoded("ipv6", "::ffff:1.2.3.4");
    assert_eq!(buf.len(), 17);
    assert_eq!(buf[0], 0x05);
    assert_eq!(&buf[11..17], &[0xff, 0xff, 1, 2, 3, 4]);
    assert_eq!(decoded, Value::String("::ffff:1.2.3.4".to_string()));
    let (buf, decoded) = encoded("ipv6", "64:ff9b::192.0.2.33");
    assert_eq!(buf[0], 0x05);
    assert_eq!(&buf[13..17], &[192, 0, 2, 33]);
    assert_eq!(decoded, Value::String("64:ff9b::c000:221".to_string()));
    let (buf, _) = encoded("ipv6", "1.2.3.4::1");
    assert_eq!(buf[0], 0x00);
    let (buf, _) = encoded("ipv6", "1:2:3:4:5:6:7:1.2.3.4");
    assert_eq!(buf[0], 0x00);
}
