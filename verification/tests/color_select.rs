use h7cad::color_select::{
    aci_string_to_color, aci_text_to_color, color_selector, color_to_aci_string,
    dropdown_options, more_button_label, palette_grid, AcadColor, ColorExtras,
};

#[test]
fn encodes_logical_colours() {
    assert_eq!(color_to_aci_string(AcadColor::ByBlock), "0");
    assert_eq!(color_to_aci_string(AcadColor::ByLayer), "256");
    assert_eq!(color_to_aci_string(AcadColor::NoColor), "256");
    assert_eq!(color_to_aci_string(AcadColor::Rgb { r: 10, g: 20, b: 30 }), "256");
}

#[test]
fn encodes_indices() {
    assert_eq!(color_to_aci_string(AcadColor::Index(1)), "1");
    assert_eq!(color_to_aci_string(AcadColor::Index(7)), "7");
    assert_eq!(color_to_aci_string(AcadColor::Index(42)), "42");
    assert_eq!(color_to_aci_string(AcadColor::Index(255)), "255");
    assert_eq!(color_to_aci_string(AcadColor::Index(0)), "0");
}

#[test]
fn decodes_codes() {
    assert_eq!(aci_string_to_color("0"), AcadColor::ByBlock);
    assert_eq!(aci_string_to_color("256"), AcadColor::ByLayer);
    assert_eq!(aci_string_to_color("1"), AcadColor::Index(1));
    assert_eq!(aci_string_to_color("255"), AcadColor::Index(255));
    assert_eq!(aci_string_to_color("0042"), AcadColor::Index(42));
}

#[test]
fn decodes_signs_like_parse() {
    assert_eq!(aci_string_to_color("+5"), AcadColor::Index(5));
    assert_eq!(aci_string_to_color("-0"), AcadColor::ByBlock);
    assert_eq!(aci_string_to_color("-5"), AcadColor::ByLayer);
    assert_eq!(aci_string_to_color("+"), AcadColor::ByLayer);
    assert_eq!(aci_string_to_color("-"), AcadColor::ByLayer);
    assert_eq!(aci_string_to_color("--5"), AcadColor::ByLayer);
}

#[test]
fn decodes_out_of_range_as_by_layer() {
    assert_eq!(aci_string_to_color("257"), AcadColor::ByLayer);
    assert_eq!(aci_string_to_color("300"), AcadColor::ByLayer);
    assert_eq!(aci_string_to_color("32767"), AcadColor::ByLayer);
    assert_eq!(aci_string_to_color("32768"), AcadColor::ByLayer);
    assert_eq!(aci_string_to_color("-32768"), AcadColor::ByLayer);
    assert_eq!(aci_string_to_color("99999999999999999999"), AcadColor::ByLayer);
}

#[test]
fn decodes_garbage_as_by_layer() {
    assert_eq!(aci_string_to_color(""), AcadColor::ByLayer);
    assert_eq!(aci_string_to_color("   "), AcadColor::ByLayer);
    assert_eq!(aci_string_to_color("abc"), AcadColor::ByLayer);
    assert_eq!(aci_string_to_color("1 2"), AcadColor::ByLayer);
    assert_eq!(aci_string_to_color("12a"), AcadColor::ByLayer);
    assert_eq!(aci_string_to_color("\u{664}"), AcadColor::ByLayer);
}

#[test]
fn decoding_trims_whitespace() {
    assert_eq!(aci_string_to_color("  7 "), AcadColor::Index(7));
    assert_eq!(aci_string_to_color("\t12\r\n"), AcadColor::Index(12));
    assert_eq!(aci_string_to_color("\u{3000}12\u{a0}"), AcadColor::Index(12));
    assert_eq!(aci_string_to_color("\u{2003}0\u{2028}"), AcadColor::ByBlock);
    assert_eq!(aci_text_to_color(" 7"), AcadColor::ByLayer);
    assert_eq!(aci_text_to_color("7"), AcadColor::Index(7));
}

#[test]
fn round_trip_of_every_slot() {
    assert_eq!(aci_string_to_color(&color_to_aci_string(AcadColor::ByBlock)), AcadColor::ByBlock);
    assert_eq!(aci_string_to_color(&color_to_aci_string(AcadColor::ByLayer)), AcadColor::ByLayer);
    for i in 1..=255u8 {
        let c = AcadColor::Index(i);
        assert_eq!(aci_string_to_color(&color_to_aci_string(c)), c);
    }
    assert_eq!(aci_string_to_color(&color_to_aci_string(AcadColor::Index(0))), AcadColor::ByBlock);
    assert_eq!(
        aci_string_to_color(&color_to_aci_string(AcadColor::Rgb { r: 1, g: 2, b: 3 })),
        AcadColor::ByLayer
    );
    assert_eq!(aci_string_to_color(&color_to_aci_string(AcadColor::NoColor)), AcadColor::ByLayer);
}

#[test]
fn decode_is_stable() {
    for s in ["", "x", "0", "17", "300", " -1 ", "+256", "255"] {
        let c = aci_string_to_color(s);
        assert_eq!(aci_string_to_color(&color_to_aci_string(c)), c);
    }
}

fn standard() -> Vec<AcadColor> {
    (1..=7u8).map(AcadColor::Index).collect()
}

#[test]
fn dropdown_without_extras() {
    let none = ColorExtras { by_layer: false, by_block: false };
    assert_eq!(dropdown_options(AcadColor::Index(3), none), standard());
    let mut with_current = standard();
    with_current.push(AcadColor::Index(200));
    assert_eq!(dropdown_options(AcadColor::Index(200), none), with_current);
}

#[test]
fn dropdown_with_extras() {
    let both = ColorExtras { by_layer: true, by_block: true };
    let mut expected = vec![AcadColor::ByLayer, AcadColor::ByBlock];
    expected.extend(standard());
    assert_eq!(dropdown_options(AcadColor::ByBlock, both), expected);
    assert_eq!(dropdown_options(AcadColor::ByLayer, both), expected);

    let layer_only = ColorExtras { by_layer: true, by_block: false };
    let mut expected = vec![AcadColor::ByLayer];
    expected.extend(standard());
    expected.push(AcadColor::ByBlock);
    assert_eq!(dropdown_options(AcadColor::ByBlock, layer_only), expected);
}

#[test]
fn dropdown_default_extras_and_rgb() {
    let rgb = AcadColor::Rgb { r: 1, g: 2, b: 3 };
    let mut expected = standard();
    expected.push(rgb);
    assert_eq!(dropdown_options(rgb, ColorExtras::default()), expected);
}

#[test]
fn palette_is_sixteen_rows_of_indices() {
    let rows = palette_grid();
    assert_eq!(rows.len(), 16);
    for (r, row) in rows.iter().enumerate() {
        let expected_len = if r < 15 { 16 } else { 15 };
        assert_eq!(row.len(), expected_len);
        for (c, idx) in row.iter().enumerate() {
            assert_eq!(*idx as usize, 16 * r + c + 1);
        }
    }
    let all: Vec<u8> = rows.concat();
    assert_eq!(all, (1..=255u8).collect::<Vec<u8>>());
}

#[test]
fn more_button_labels() {
    assert_eq!(more_button_label(true), "\u{d7}");
    assert_eq!(more_button_label(false), "\u{22ef}");
}

#[test]
fn selector_model() {
    let extras = ColorExtras { by_layer: true, by_block: false };
    let closed = color_selector(AcadColor::Index(9), false, extras);
    assert!(closed.palette.is_none());
    assert_eq!(closed.selected, AcadColor::Index(9));
    assert_eq!(closed.options.len(), 9);
    assert_eq!(closed.options[8], AcadColor::Index(9));
    assert_eq!(closed.more_label, "\u{22ef}");
    let open = color_selector(AcadColor::Index(9), true, extras);
    assert_eq!(open.palette.unwrap().len(), 16);
    assert_eq!(open.more_label, "\u{d7}");
}

#[test]
fn dropdown_offers_current_once() {
    let colours = [
        AcadColor::ByLayer,
        AcadColor::ByBlock,
        AcadColor::NoColor,
        AcadColor::Index(0),
        AcadColor::Index(1),
        AcadColor::Index(7),
        AcadColor::Index(8),
        AcadColor::Rgb { r: 0, g: 0, b: 0 },
    ];
    for by_layer in [false, true] {
        for by_block in [false, true] {
            let extras = ColorExtras { by_layer, by_block };
            for c in colours {
                let opts = dropdown_options(c, extras);
                assert_eq!(opts.iter().filter(|o| **o == c).count(), 1);
                for i in 0..opts.len() {
                    for j in 0..opts.len() {
                        if i != j {
                            assert_ne!(opts[i], opts[j]);
                        }
                    }
                }
            }
        }
    }
}
