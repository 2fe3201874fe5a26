use imagespin::config::{parse_hex, rewrite_turns};

const SAMPLE: &str = r#"{
  "source": "images/1.png",
  "frames": 150,
  "fps": 25,
  "layers": [
    { "name": "a", "outer": { "circle": 410 }, "inner": { "circle": 389 }, "turns":  0 },
    { "name": "b", "outer": { "circle": 389 }, "inner": { "circle": 353 }, "turns":  1 },
    { "name": "c", "outer": { "circle": 353 }, "inner": { "circle": 0   }, "turns": -3 }
  ]
}
"#;

#[test]
fn rewrite_updates_turns_frames_and_fps() {
    let out = rewrite_turns(SAMPLE, &[0, -2, 5], 240, 20);
    assert!(out.contains("\"frames\": 240,"));
    assert!(out.contains("\"fps\": 20,"));
    assert!(out.contains("\"turns\":  0 }"));
    assert!(out.contains("\"turns\": -2 }"));
    assert!(out.contains("\"turns\":  5 }"));
    // geometry must survive untouched
    assert!(out.contains("\"outer\": { \"circle\": 389 }"));
    assert!(out.contains("\"source\": \"images/1.png\""));
}

#[test]
fn rewrite_output_is_still_valid_json() {
    let out = rewrite_turns(SAMPLE, &[7, -7, 0], 300, 30);
    let v: serde_json::Value = serde_json::from_str(&out).expect("rewrite produced invalid JSON");
    let layers = v["layers"].as_array().unwrap();
    assert_eq!(layers[0]["turns"], 7);
    assert_eq!(layers[1]["turns"], -7);
    assert_eq!(layers[2]["turns"], 0);
    assert_eq!(v["frames"], 300);
    assert_eq!(v["fps"], 30);
}

#[test]
fn rewrite_preserves_trailing_comma_style() {
    let one = "    { \"name\": \"a\", \"turns\":  1 },\n";
    let out = rewrite_turns(one, &[-4], 1, 1);
    assert_eq!(out, "    { \"name\": \"a\", \"turns\": -4 },\n");
}

#[test]
fn rewrite_leaves_layers_past_the_given_turns_alone() {
    let two = "{ \"turns\": 1 }\n{ \"turns\": 2 }";
    let out = rewrite_turns(two, &[9], 1, 1);
    assert_eq!(out, "{ \"turns\":  9 }\n{ \"turns\": 2 }\n");
}

#[test]
fn rewrite_keeps_indentation_of_frames_and_fps() {
    let out = rewrite_turns("\t  \"frames\": 1,\r\n\"fps\":2", &[], 48, 12);
    assert_eq!(out, "\t  \"frames\": 48,\n\"fps\": 12\n");
}

#[test]
fn rewrite_changes_only_the_value_of_the_last_key() {
    let text = "{\n  \"frames\": 150,\n  \"fps\": 25\n}\n";
    let out = rewrite_turns(text, &[], 240, 20);
    assert_eq!(out, "{\n  \"frames\": 240,\n  \"fps\": 20\n}\n");
    let v: serde_json::Value = serde_json::from_str(&out).expect("rewrite produced invalid JSON");
    assert_eq!(v["fps"], 20);
    // Whatever follows the number stays, comments included.
    let out = rewrite_turns("\"fps\":  2.5 , // per second", &[], 1, 30);
    assert_eq!(out, "\"fps\": 30 , // per second\n");
}

#[test]
fn rewriting_twice_writes_what_rewriting_once_wrote() {
    let once = rewrite_turns(SAMPLE, &[3, -12, 100], 90, 15);
    assert_eq!(rewrite_turns(&once, &[3, -12, 100], 90, 15), once);
    let text = "\t\"frames\":1e3,\r\n  \"fps\" : 2\n{ \"turns\": 4 } // x\n\"turns\":";
    let once = rewrite_turns(text, &[-5, 6], 7, 8);
    assert_eq!(once, "\t\"frames\": 7,\n  \"fps\" : 2\n{ \"turns\": -5 } // x\n\"turns\":  6 \n");
    assert_eq!(rewrite_turns(&once, &[-5, 6], 7, 8), once);
}

#[test]
fn rewrite_of_nothing_is_nothing() {
    assert_eq!(rewrite_turns("", &[1, 2], 3, 4), "");
}

#[test]
fn parse_hex_reads_rrggbb() {
    assert_eq!(parse_hex("#FBB929"), [0xFB, 0xB9, 0x29]);
    assert_eq!(parse_hex("0a0b0c"), [10, 11, 12]);
    assert_eq!(parse_hex("##ff0000"), [255, 0, 0]);
}

#[test]
fn parse_hex_reads_garbage_as_black() {
    assert_eq!(parse_hex("white"), [0, 0, 0]);
    assert_eq!(parse_hex("#"), [0, 0, 0]);
    assert_eq!(parse_hex("123456789"), [0, 0, 0]);
}

#[test]
fn parse_hex_keeps_the_low_24_bits_and_takes_a_plus() {
    assert_eq!(parse_hex("1FFFFFF"), [0xFF, 0xFF, 0xFF]);
    assert_eq!(parse_hex("+FF"), [0, 0, 0xFF]);
    assert_eq!(parse_hex("-FF"), [0, 0, 0]);
}
