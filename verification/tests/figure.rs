use imagespin::figure::items::{check_items, default_flank_symbol, Item};
use imagespin::figure::rules::{
    check_layer_count, check_loop, duplicate_name, is_name_taken, layer_context, stack_layers,
    stacking_order,
};
use imagespin::figure::star::{check_polygon_sides, check_star, gcd_of, star_order};
use imagespin::figure::{FigureError, LayerSpec, Loop, Rgb, Symbol};

#[test]
fn tokens_use_the_same_names_as_fields() {
    assert_eq!(Symbol::from_token("{cross}"), Some(Ok(Symbol::Cross)));
    assert_eq!(Symbol::from_token("{cross-potent}"), Some(Ok(Symbol::CrossPotent)));
    assert_eq!(Symbol::from_token("{orb}"), Some(Ok(Symbol::Orb)));
    assert_eq!(Symbol::from_token("cross"), None);
    assert!(Symbol::from_token("{crosss}").unwrap().unwrap_err().contains("latin-cross"));
}

#[test]
fn an_unknown_symbol_is_named_with_the_choices() {
    assert_eq!(
        Symbol::from_token("{crosss}"),
        Some(Err(
            "unknown variant `crosss`, expected one of `cross`, `cross-potent`, `latin-cross`, `orb`, `tower`"
                .to_string()
        ))
    );
    assert_eq!(Symbol::from_token("{tower}"), Some(Ok(Symbol::Tower)));
    assert_eq!(Symbol::from_token("{latin-cross}"), Some(Ok(Symbol::LatinCross)));
    assert_eq!(Symbol::from_token("{}").map(|r| r.is_err()), Some(true));
    assert_eq!(Symbol::from_token("{"), None);
    assert_eq!(Symbol::from_token(""), None);
}

#[test]
fn colours_must_be_hex() {
    assert_eq!(Rgb::try_from("#FBB929".to_string()), Ok(Rgb([0xFB, 0xB9, 0x29])));
    assert_eq!(Rgb::try_from("#000000".to_string()), Ok(Rgb([0, 0, 0])));
    assert_eq!(
        Rgb::try_from("white".to_string()),
        Err("expected a colour like \"#FBB929\", got \"white\"".to_string())
    );
    assert!(Rgb::try_from("#FBB92".to_string()).is_err());
    assert!(Rgb::try_from("FBB9290".to_string()).is_err());
    assert!(Rgb::try_from("#FBB92G".to_string()).is_err());
    // A sign is no hexadecimal digit.
    assert_eq!(
        Rgb::try_from("#+12345".to_string()),
        Err("expected a colour like \"#FBB929\", got \"#+12345\"".to_string())
    );
    assert_eq!(Rgb::try_from("#fbb929".to_string()), Ok(Rgb([0xFB, 0xB9, 0x29])));
}

#[test]
fn stars_must_be_one_continuous_line() {
    assert_eq!(check_star(7, 3), Ok(()));
    assert_eq!(check_star(5, 2), Ok(()));
    assert_eq!(
        check_star(6, 2),
        Err("no single star has 6 points joined every 2: `skip` must be at least 2, less than half of `points`, and share no factor with it".to_string())
    );
    assert!(check_star(4, 1).is_err());
    assert!(check_star(7, 1).is_err());
    assert!(check_star(8, 4).is_err());
    assert!(check_star(9, 3).is_err());
}

#[test]
fn polygons_need_three_sides() {
    assert_eq!(check_polygon_sides(3), Ok(()));
    assert_eq!(check_polygon_sides(2), Err("a polygon needs at least 3 `sides`, got 2".to_string()));
    assert_eq!(check_polygon_sides(0), Err("a polygon needs at least 3 `sides`, got 0".to_string()));
}

#[test]
fn gcd_is_euclids() {
    assert_eq!(gcd_of(12, 18), 6);
    assert_eq!(gcd_of(7, 3), 1);
    assert_eq!(gcd_of(0, 5), 5);
    assert_eq!(gcd_of(5, 0), 5);
}

#[test]
fn stars_visit_every_vertex_once() {
    let mut s = star_order(7, 3);
    assert_eq!(s, [0, 3, 6, 2, 5, 1, 4]);
    s.sort();
    s.dedup();
    assert_eq!(s.len(), 7);
}

#[test]
fn a_star_that_shares_a_factor_closes_early() {
    let mut s = star_order(6, 2);
    s.sort();
    s.dedup();
    assert_eq!(s, [0, 2, 4]);
}

#[test]
fn the_loop_needs_a_frame_and_a_rate() {
    assert!(check_loop(Loop { frames: 10, fps: 10 }).is_ok());
    let e = check_loop(Loop { frames: 0, fps: 10 }).unwrap_err();
    assert_eq!(e.to_string(), "loop: `frames` and `fps` must both be at least 1");
    assert!(check_loop(Loop { frames: 10, fps: 0 }).is_err());
}

#[test]
fn between_one_and_sixteen_layers() {
    assert!(check_layer_count(1).is_ok());
    assert!(check_layer_count(16).is_ok());
    assert_eq!(check_layer_count(0).unwrap_err().to_string(), "layers: need between 1 and 16 layers, got 0");
    assert_eq!(check_layer_count(17).unwrap_err().to_string(), "layers: need between 1 and 16 layers, got 17");
}

#[test]
fn layer_names_are_unique() {
    let names: Vec<String> = ["a", "b", "a"].iter().map(|s| s.to_string()).collect();
    assert!(!is_name_taken(&names, 0));
    assert!(!is_name_taken(&names, 1));
    assert!(is_name_taken(&names, 2));
    let e = duplicate_name(2, "a");
    assert!(e.to_string().contains("another layer already has this name"), "{}", e.to_string());
    assert_eq!(e.to_string(), "layers[2] \"a\": another layer already has this name");
}

#[test]
fn a_layer_is_placed_by_index_and_quoted_name() {
    assert_eq!(layer_context(2, "letter ring"), "layers[2] \"letter ring\"");
    assert_eq!(layer_context(0, "say \"hi\""), "layers[0] \"say \\\"hi\\\"\"");
}

#[test]
fn z_decides_the_stacking_and_ties_keep_file_order() {
    assert_eq!(stacking_order(&[5, 0]), [1, 0]);
    assert_eq!(stacking_order(&[0, 0]), [0, 1]);
    assert_eq!(stacking_order(&[2, -1, 2, 0]), [1, 3, 0, 2]);
    assert_eq!(stacking_order(&[]), Vec::<usize>::new());
}

fn layer(name: &str, z: i32) -> LayerSpec<u8> {
    LayerSpec { name: name.to_string(), turns: 1, z, elements: vec![z as u8], note: None }
}

#[test]
fn layers_are_stacked_by_z_keeping_file_order() {
    let stacked = stack_layers(vec![layer("a", 5), layer("b", 0)]);
    let names: Vec<&str> = stacked.iter().map(|l| l.name.as_str()).collect();
    assert_eq!(names, ["b", "a"], "higher z should be drawn last, on top");
    let stacked = stack_layers(vec![layer("a", 0), layer("b", 0)]);
    let names: Vec<&str> = stacked.iter().map(|l| l.name.as_str()).collect();
    assert_eq!(names, ["a", "b"]);
    let stacked = stack_layers(vec![layer("p", 2), layer("q", -1), layer("r", 2), layer("s", 0)]);
    let names: Vec<&str> = stacked.iter().map(|l| l.name.as_str()).collect();
    assert_eq!(names, ["q", "s", "p", "r"]);
    assert_eq!(stacked[0].elements, [255]);
    assert!(stack_layers(Vec::<LayerSpec<u8>>::new()).is_empty());
}

#[test]
fn errors_read_like_a_compilers() {
    let src = "{\n  a: 1,\n  bb: x\n}";
    let e = FigureError::new("boom".to_string()).file("fig.json5").at(src, 2, 6);
    assert_eq!(e.to_string(), "fig.json5:3:7: boom\n 3 |   bb: x\n   |       ^");
    let e = FigureError::new("boom".to_string()).context("layers".to_string());
    assert_eq!(e.to_string(), "layers: boom");
    let e = FigureError::new("boom".to_string()).file("fig.json5");
    assert_eq!(e.to_string(), "fig.json5: boom");
    let e = FigureError::new("boom".to_string()).at(src, 0, 0);
    assert_eq!(e.to_string(), "1:1: boom\n 1 | {\n   | ^");
}

#[test]
fn a_position_past_the_end_has_no_excerpt() {
    let e = FigureError::new("boom".to_string()).at("one line", 5, 0);
    assert_eq!(e.to_string(), "6:1: boom");
}

#[test]
fn a_parse_error_carries_its_position_and_path() {
    let src = "{\n  a: 1,\n  b: \"x\"\n}";
    let mut de = json5::Deserializer::from_str(src);
    let r: Result<std::collections::BTreeMap<String, u32>, _> = serde_path_to_error::deserialize(&mut de);
    let e = FigureError::parse(src, r.unwrap_err()).to_string();
    // json5's own position leads; its ` at line 3 column 6` is taken off the message.
    assert_eq!(e, "3:6: b: expected number\n 3 |   b: \"x\"\n   |      ^");
}

#[test]
fn a_syntax_error_points_at_its_line() {
    let src = "{\n  a: 1,\n  b: ]\n}";
    let mut de = json5::Deserializer::from_str(src);
    let r: Result<std::collections::BTreeMap<String, u32>, _> = serde_path_to_error::deserialize(&mut de);
    let e = FigureError::parse(src, r.unwrap_err()).to_string();
    assert!(e.starts_with("3:"), "{e}");
    assert!(e.contains("\n 3 |   b: ]\n"), "{e}");
}

#[test]
fn items_must_be_there_and_name_real_symbols() {
    assert_eq!(check_items(&[]), Err("`items` is empty".to_string()));
    let good = [Item::Line("AB".to_string()), Item::Line("{cross}".to_string()), Item::Line(String::new())];
    assert_eq!(check_items(&good), Ok(()));
    let bad = [
        Item::Line("AB".to_string()),
        Item::Stack(vec!["x".to_string(), "{crosss}".to_string(), "{orbb}".to_string()]),
    ];
    assert_eq!(
        check_items(&bad),
        Err("item \"{crosss}\": unknown variant `crosss`, expected one of `cross`, `cross-potent`, `latin-cross`, `orb`, `tower`".to_string())
    );
}

#[test]
fn flanks_default_to_the_cross() {
    assert_eq!(default_flank_symbol(), Symbol::Cross);
}

#[test]
fn nonsense_values_are_rejected_with_context() {
    let msg = check_polygon_sides(2).unwrap_err();
    let where_ = format!("{} › elements[0] (polygon)", layer_context(0, "a"));
    let e = FigureError::new(msg).context(where_).to_string();
    assert!(e.contains(r#"layers[0] "a" › elements[0] (polygon)"#) && e.contains("3 `sides`"), "{e}");
    let e = check_items(&[Item::Line("{crosss}".to_string())]).unwrap_err();
    assert!(e.contains("unknown variant `crosss`"), "{e}");
}
