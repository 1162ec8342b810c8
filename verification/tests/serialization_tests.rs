use radar::serialization::{BinaryWriter, OverviewWire, PlayerWire, VerticalSectionWire, WebState};
use radar::website::{overview_map_key, shown_map_name, WebsiteConfig};

#[test]
fn writes_little_endian_values() {
    let mut w = BinaryWriter::with_capacity(4);
    w.write_u8(7);
    w.write_i16(-2);
    w.write_u16(0x1234);
    w.write_string("hé");
    assert_eq!(w.finish(), vec![7, 0xfe, 0xff, 0x34, 0x12, 3, b'h', 0xc3, 0xa9]);
}

#[test]
fn long_strings_are_cut() {
    let s = "x".repeat(300);
    let mut w = BinaryWriter::with_capacity(0);
    w.write_string(&s);
    let out = w.finish();
    assert_eq!(out[0], 44);
    assert_eq!(out.len(), 45);
}

fn sample() -> WebState {
    WebState {
        map_name: "de_dust2".to_string(),
        overview: Some(OverviewWire {
            pos_x: -2476,
            pos_y: 3239,
            scale: 4400,
            vertical_sections: vec![VerticalSectionWire { name: "lower".to_string(), altitude_max: -100, altitude_min: -10000 }],
        }),
        players: vec![PlayerWire { name: "p".to_string(), health: 100, team: 2, pos: [1, -1, 300] }],
    }
}

#[test]
fn encodes_a_state() {
    let st = sample();
    let bin = st.to_binary();
    let mut expected = vec![8];
    expected.extend_from_slice(b"de_dust2");
    expected.push(1);
    expected.extend_from_slice(&(-2476i16).to_le_bytes());
    expected.extend_from_slice(&3239i16.to_le_bytes());
    expected.extend_from_slice(&4400u16.to_le_bytes());
    expected.push(1);
    expected.push(5);
    expected.extend_from_slice(b"lower");
    expected.extend_from_slice(&(-100i16).to_le_bytes());
    expected.extend_from_slice(&(-10000i16).to_le_bytes());
    expected.push(1);
    expected.push(1);
    expected.push(b'p');
    expected.push(100);
    expected.push(2);
    expected.extend_from_slice(&1i16.to_le_bytes());
    expected.extend_from_slice(&(-1i16).to_le_bytes());
    expected.extend_from_slice(&300i16.to_le_bytes());
    assert_eq!(bin, expected);
    assert!(st.fits_size_hint());
    assert_eq!(st.size_hint(), bin.len());
}

#[test]
fn encodes_a_state_without_overview() {
    let st = WebState { map_name: "Unknown".to_string(), overview: None, players: vec![] };
    assert_eq!(st.to_binary(), vec![7, b'U', b'n', b'k', b'n', b'o', b'w', b'n', 0, 0]);
    assert_eq!(st.size_hint(), 10);
}

#[test]
fn size_hint_counts_long_names_whole() {
    let mut st = sample();
    st.players[0].name = "y".repeat(256);
    st.players[0].health = 300;
    let bin = st.to_binary();
    assert_eq!(st.size_hint(), bin.len() + 256);
    // the health is sent as its low byte
    assert_eq!(bin[bin.len() - 8], 44);
}

#[test]
fn default_website_config() {
    let c = WebsiteConfig::default();
    assert_eq!(c.host, "0.0.0.0");
    assert_eq!(c.port, 3000);
    assert_eq!(c.sleep_ms, 50);
}

#[test]
fn overview_files_are_keyed_by_map() {
    assert_eq!(overview_map_key("de_dust2_radar"), "de_dust2");
    assert_eq!(overview_map_key("de_nuke_radar_radar"), "de_nuke");
    assert_eq!(overview_map_key("cs_office"), "cs_office");
}

#[test]
fn empty_map_names_are_unknown() {
    assert_eq!(shown_map_name(String::new()), "Unknown");
    assert_eq!(shown_map_name("<empty>".to_string()), "Unknown");
    assert_eq!(shown_map_name("de_dust2".to_string()), "de_dust2");
}

#[test]
fn writer_output_is_the_calls_in_order() {
    let mut w = BinaryWriter::with_capacity(0);
    w.write_u8(7);
    w.write_i16(-2);
    w.write_string("ab");
    w.write_u16(0x1234);
    w.write_string("");
    assert_eq!(w.finish(), vec![7, 0xFE, 0xFF, 2, b'a', b'b', 0x34, 0x12, 0]);
}
