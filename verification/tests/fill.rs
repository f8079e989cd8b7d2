use vgc::fill::Rgba;

#[test]
fn css_string_lists_channels_in_decimal() {
    let rgba = Rgba::new(255, 255, 255, 255);
    assert_eq!(rgba.to_css_string(), "rgba(255,255,255,255)");
    let rgba = Rgba::new(25, 50, 75, 100);
    assert_eq!(rgba.to_css_string(), "rgba(25,50,75,100)");
    assert_eq!(Rgba::new(0, 7, 10, 0).to_css_string(), "rgba(0,7,10,0)");
}

#[test]
fn hex_string_has_two_digits_per_channel() {
    let rgba = Rgba::new(255, 255, 255, 255);
    assert_eq!(rgba.to_hex_string(), "#ffffffff");
    let rgba = Rgba::new(25, 50, 75, 100);
    assert_eq!(rgba.to_hex_string(), "#19324b64");
    assert_eq!(Rgba::new(0, 1, 15, 16).to_hex_string(), "#00010f10");
}

#[test]
fn small_hex_string_leaves_alpha_out() {
    let rgba = Rgba::new(255, 255, 255, 255);
    assert_eq!(rgba.to_small_hex_string(), "#ffffff");
    let rgba = Rgba::new(25, 50, 75, 100);
    assert_eq!(rgba.to_small_hex_string(), "#19324b");
}

#[test]
fn from_small_hex_safe_reads_six_digits_after_hashes() {
    assert_eq!(Rgba::from_small_hex_safe("#19324b"), Ok(Rgba::new(25, 50, 75, 255)));
    assert_eq!(Rgba::from_small_hex_safe("19324B"), Ok(Rgba::new(25, 50, 75, 255)));
    assert_eq!(Rgba::from_small_hex_safe("##ffFF00zz"), Ok(Rgba::new(255, 255, 0, 255)));
}

#[test]
fn from_small_hex_safe_refuses_short_or_non_hex_text() {
    let err = Err("Invalid hex string".to_string());
    assert_eq!(Rgba::from_small_hex_safe("#19324"), err);
    assert_eq!(Rgba::from_small_hex_safe("#1g324b"), err);
    assert_eq!(Rgba::from_small_hex_safe(""), err);
    assert_eq!(Rgba::from_small_hex_safe("###"), err);
}

#[test]
fn from_small_hex_string_falls_back_to_black() {
    assert_eq!(Rgba::from_small_hex_string("#00ff00"), Rgba::new(0, 255, 0, 255));
    assert_eq!(Rgba::from_small_hex_string("green"), Rgba::new(0, 0, 0, 255));
}

#[test]
fn small_hex_round_trip_gives_opaque_colour() {
    for c in [Rgba::new(1, 2, 3, 4), Rgba::new(255, 0, 128, 0), Rgba::transparent()] {
        let back = Rgba::from_small_hex_safe(&c.to_small_hex_string()).unwrap();
        assert_eq!(back, Rgba::new(c.r, c.g, c.b, 255));
    }
}

#[test]
fn named_colours_and_default() {
    assert_eq!(Rgba::black(), Rgba::new(0, 0, 0, 255));
    assert_eq!(Rgba::white(), Rgba::new(255, 255, 255, 255));
    assert_eq!(Rgba::transparent(), Rgba::new(0, 0, 0, 0));
    assert_eq!(Rgba::default(), Rgba::black());
    assert_eq!(Rgba::from([1, 2, 3, 4]), Rgba::new(1, 2, 3, 4));
}
