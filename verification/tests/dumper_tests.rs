use radar::dumper::{is_image_extension, needs_write, png_file_name, radar_output_name, Config, Overview};

const DUST2: &str = r#"// overview
"de_dust2"
{
	"material"	"overviews/de_dust2"
	"pos_x"		"-2476" // left
	"pos_y"		"3239"
	"scale"		"4.4"
	"rotate"	"1"
	"zoom"		"1.1"
	"rotate"	"0"

	"verticalsections"
	{
		"default" // but not the lower
		{
			"AltitudeMax" "10000"
			"AltitudeMin" "-100"
		}
		"lower"
		{
			"AltitudeMax" "-100"
			"AltitudeMin" "-10000"
		}
	}
}
"#;

#[test]
fn parses_an_overview() {
    let ov = Overview::parse(DUST2).unwrap();
    assert_eq!(ov.map_name, "de_dust2");
    assert_eq!(ov.material, "overviews/de_dust2");
    assert_eq!(ov.pos_x.as_deref(), Some("-2476"));
    assert_eq!(ov.pos_y.as_deref(), Some("3239"));
    assert_eq!(ov.scale.as_deref(), Some("4.4"));
    assert_eq!(
        ov.settings,
        vec![("rotate".to_string(), "0".to_string()), ("zoom".to_string(), "1.1".to_string())]
    );
    assert_eq!(ov.vertical_sections.len(), 2);
    assert_eq!(ov.vertical_sections[0].name, "default");
    assert_eq!(ov.vertical_sections[0].altitude_max.as_deref(), Some("10000"));
    assert_eq!(ov.vertical_sections[0].altitude_min.as_deref(), Some("-100"));
    assert_eq!(ov.vertical_sections[1].name, "lower");
    assert_eq!(ov.vertical_sections[1].altitude_min.as_deref(), Some("-10000"));
}

#[test]
fn crlf_lines_and_missing_values() {
    let ov = Overview::parse("\"m\"\r\n{\r\n\"scale\" \"2\"\r\n}").unwrap();
    assert_eq!(ov.map_name, "m");
    assert_eq!(ov.scale.as_deref(), Some("2"));
    assert_eq!(ov.pos_x, None);
}

#[test]
fn an_overview_needs_a_name() {
    assert!(Overview::parse("").is_none());
    assert!(Overview::parse("\"material\" \"x\"\n").is_none());
    assert!(Overview::parse("{\n}\n").is_none());
}

#[test]
fn radar_image_names() {
    assert_eq!(radar_output_name("de_dust2_radar_psd").as_deref(), Some("de_dust2_radar.png"));
    assert_eq!(radar_output_name("de_nuke_lower_radar").as_deref(), Some("de_nuke_lower_radar.png"));
    assert_eq!(radar_output_name("de_dust2"), None);
}

#[test]
fn image_extensions() {
    assert!(is_image_extension("png"));
    assert!(is_image_extension("tga"));
    assert!(!is_image_extension("PNG"));
    assert!(!is_image_extension(""));
}

#[test]
fn writes_only_changed_files() {
    assert!(needs_write(None, b"a"));
    assert!(needs_write(Some(b"a"), b"b"));
    assert!(needs_write(Some(b"ab"), b"a"));
    assert!(!needs_write(Some(b"ab"), b"ab"));
}

#[test]
fn default_dumper_config() {
    let c = Config::default();
    assert_eq!(
        c.vpk_path,
        r"C:\Program Files (x86)\Steam\steamapps\common\Counter-Strike Global Offensive\game\csgo\pak01_dir.vpk"
    );
    assert_eq!(c.vrf_cli_path, r".\.vrf\Source2Viewer-CLI.exe");
    assert_eq!(c.assets_dir, r".\.assets");
}

#[test]
fn image_names_end_in_png() {
    assert_eq!(png_file_name("de_dust2_radar".to_string()), "de_dust2_radar.png");
    assert_eq!(png_file_name(String::new()), ".png");
}

#[test]
fn layout_and_comments_do_not_change_the_parse() {
    let plain = "\"de_x\"\n{\n\"material\" \"m\"\n\"pos_x\" \"1\"\n}\n";
    let laid_out = "\n  \"de_x\"   // the map\n\n{\n\t\t\"material\" \"m\" // a comment\n   \"pos_x\" \"1\"\t\n\n}\n";
    assert_eq!(
        format!("{:?}", Overview::parse(plain)),
        format!("{:?}", Overview::parse(laid_out))
    );
    assert!(Overview::parse(plain).is_some());
}
