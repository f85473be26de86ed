use labelexim::hex_color::{deserialize, serialize};
use labelexim::label::{decode_labels, encode_labels, Color, ColorError, Label, LabelError, LabelUpdate, WireLabel};

fn label(name: &str, description: &str, r: u8, g: u8, b: u8) -> Label {
    Label { name: name.to_string(), description: description.to_string(), color: Color { r, g, b } }
}

fn wire(name: &str, color: &str) -> WireLabel {
    WireLabel { name: name.to_string(), description: String::new(), color: color.to_string() }
}

#[test]
fn serialize_writes_six_lowercase_digits() {
    assert_eq!(serialize(&Color { r: 255, g: 0, b: 0 }), "ff0000");
    assert_eq!(serialize(&Color { r: 0x0a, g: 0xbc, b: 0x01 }), "0abc01");
    assert_eq!(serialize(&Color { r: 0, g: 0, b: 0 }), "000000");
}

#[test]
fn deserialize_reads_digit_pairs() {
    assert_eq!(deserialize("ff0000"), Ok(Color { r: 255, g: 0, b: 0 }));
    assert_eq!(deserialize("00ff7f"), Ok(Color { r: 0, g: 255, b: 127 }));
    assert_eq!(deserialize("ABCDEF"), Ok(Color { r: 0xab, g: 0xcd, b: 0xef }));
}

#[test]
fn color_round_trip_over_samples() {
    for r in [0u8, 1, 15, 16, 127, 128, 200, 255] {
        for g in [0u8, 9, 10, 160, 255] {
            for b in [0u8, 0x5a, 0xa5, 255] {
                let c = Color { r, g, b };
                let s = serialize(&c);
                assert_eq!(s.len(), 6);
                assert!(s.chars().all(|ch| ch.is_ascii_digit() || ('a'..='f').contains(&ch)));
                assert_eq!(deserialize(&s), Ok(c));
            }
        }
    }
}

#[test]
fn deserialize_rejects_malformed() {
    for bad in ["ZZZZZZ", "abc", "#ff0000", "", "ff00000", "ff 000", "ééé"] {
        assert_eq!(deserialize(bad), Err(ColorError::InvalidColorFormat(bad.to_string())));
    }
}

#[test]
fn label_wire_round_trip() {
    let labels = vec![label("Bug", "broken", 255, 0, 0), label("docs", "", 0, 0x80, 0xff)];
    let w = encode_labels(&labels);
    assert_eq!(w[0].color, "ff0000");
    assert_eq!(w[1].color, "0080ff");
    assert_eq!(w[0].name, "Bug");
    assert_eq!(decode_labels(&w), Ok(labels));
}

#[test]
fn decode_labels_fails_as_a_whole() {
    let w = vec![wire("a", "ffffff"), wire("b", "nothex"), wire("c", "#000000")];
    assert_eq!(
        decode_labels(&w),
        Err(LabelError::InvalidLabelData {
            index: 1,
            source: ColorError::InvalidColorFormat("nothex".to_string()),
        })
    );
    assert_eq!(decode_labels(&Vec::new()), Ok(Vec::new()));
}

#[test]
fn label_update_payloads() {
    let l = label("bug", "issue", 0, 255, 0);
    let with = LabelUpdate::with_name(&l);
    assert_eq!(with.new_name, Some("bug".to_string()));
    assert_eq!(with.description, "issue");
    assert_eq!(with.color, Color { r: 0, g: 255, b: 0 });
    let without = LabelUpdate::without_name(&l);
    assert_eq!(without.new_name, None);
    assert_eq!(without.description, "issue");
}
