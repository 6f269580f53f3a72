use img2glyph::labeling::{
    all_indices, apply_assignments, apply_mapping, apply_sequence, entries_from_boxes,
    populate_glyph_names, record_label, rename_target, unlabeled_indices, AssignmentDoc,
    AssignmentEntry,
};
use img2glyph::agl_name;
use img2glyph::json::{number_text_member, read_assignments, read_reply, reply_fields, string_member, JsonValue};
use img2glyph::manifest::{BboxRecord, GlyphEntry};
use img2glyph::raster::{GrayImage, LabelImage};
use img2glyph::reading_order::assign_reading_order;
use img2glyph::vision::{clean_reply, image_payload, reply_label};
use img2glyph::segment::{extract_glyph, find_glyphs, glyphs_from_labels, GlyphBbox};
use img2glyph::text::{char_unicode_info, codepoint_char, glyph_id, unicode_char_name, unicode_filename};
use img2glyph::{segment_image, SegmentConfig};

fn bbox(x: u32, y: u32, w: u32, h: u32, label: u32) -> GlyphBbox {
    GlyphBbox { x, y, w, h, area: w * h, row: 0, col: 0, label }
}

fn entry(id: &str) -> GlyphEntry {
    GlyphEntry {
        id: id.to_string(),
        file: format!("{}.png", id),
        bbox: BboxRecord { x: 0, y: 0, w: 1, h: 1 },
        area_px: 1,
        row: 0,
        col: 0,
        unicode: None,
        name: None,
        glyph_name: None,
        confidence_bits: None,
    }
}

/// A white image with black filled rectangles.
fn specimen(width: u32, height: u32, rects: &[(u32, u32, u32, u32)]) -> GrayImage {
    let mut px = vec![255u8; (width * height) as usize];
    for &(x, y, w, h) in rects {
        for yy in y..y + h {
            for xx in x..x + w {
                px[(yy * width + xx) as usize] = 0;
            }
        }
    }
    GrayImage::from_raw(width, height, px).unwrap()
}

#[test]
fn default_config_matches_documented_values() {
    let c = SegmentConfig::default();
    assert_eq!(c.min_area, 200);
    assert_eq!(c.max_area, 50_000);
    assert_eq!(c.block_radius, 15);
    assert_eq!(c.padding, 10);
}

#[test]
fn char_names_of_letters_digits_and_others() {
    assert_eq!(unicode_char_name('A'), "LATIN CAPITAL LETTER A");
    assert_eq!(unicode_char_name('z'), "LATIN SMALL LETTER Z");
    assert_eq!(unicode_char_name('0'), "DIGIT ZERO");
    assert_eq!(unicode_char_name('9'), "DIGIT NINE");
    assert_eq!(unicode_char_name('&'), "AMPERSAND");
    assert_eq!(unicode_char_name('\\'), "REVERSE SOLIDUS");
    assert_eq!(unicode_char_name(' '), "SPACE");
    assert_eq!(unicode_char_name('é'), "CHARACTER U+00E9");
    assert_eq!(unicode_char_name('\u{1F600}'), "CHARACTER U+1F600");
}

#[test]
fn char_unicode_info_pads_to_four_digits() {
    assert_eq!(char_unicode_info('A'), ("U+0041".to_string(), "LATIN CAPITAL LETTER A".to_string()));
    assert_eq!(char_unicode_info('¶').0, "U+00B6");
    assert_eq!(char_unicode_info('\u{10FFFF}').0, "U+10FFFF");
    assert_eq!(char_unicode_info('\0').0, "U+0000");
}

#[test]
fn unicode_filename_examples() {
    assert_eq!(unicode_filename("U+0041", "LATIN CAPITAL LETTER A"), "U+0041_A.png");
    assert_eq!(unicode_filename("U+00B6", "PILCROW SIGN"), "U+00B6_PILCROW_SIGN.png");
    assert_eq!(unicode_filename("u+0061", "LATIN SMALL LETTER A"), "U+0061_a.png");
    assert_eq!(unicode_filename("U+0026", "AMPERSAND"), "U+0026_AMPERSAND.png");
    assert_eq!(unicode_filename("U+00e9", "x"), "U+00E9_é.png");
    assert_eq!(unicode_filename("U+U+0042", "B"), "U+U+0042_B.png");
    assert_eq!(unicode_filename("U++0043", "C"), "U++0043_C.png");
    assert_eq!(unicode_filename("XYZ", "foo bar-baz"), "XYZ_foo_bar_baz.png");
    assert_eq!(unicode_filename("U+D800", "SURROGATE"), "U+D800_SURROGATE.png");
    assert_eq!(unicode_filename("U+FFFFFFFFF", "BIG"), "U+FFFFFFFFF_BIG.png");
    assert_eq!(unicode_filename("U+", "NONE"), "U+_NONE.png");
    assert_eq!(unicode_filename("U+0007", "BELL"), "U+0007_BELL.png");
}

#[test]
fn codepoint_char_reads_back_the_character() {
    assert_eq!(codepoint_char("U+0041"), Some('A'));
    assert_eq!(codepoint_char("U+002E"), None);
    assert_eq!(codepoint_char("+41"), Some('A'));
    assert_eq!(codepoint_char("-41"), None);
}

#[test]
fn glyph_ids_are_padded_to_four_digits() {
    assert_eq!(glyph_id(1), "glyph_0001");
    assert_eq!(glyph_id(42), "glyph_0042");
    assert_eq!(glyph_id(12345), "glyph_12345");
}

#[test]
fn reading_order_groups_rows_and_numbers_columns() {
    // Second row first in input, first row out of x order.
    let mut g = vec![
        bbox(50, 100, 20, 30, 1),
        bbox(40, 10, 20, 30, 2),
        bbox(5, 12, 20, 30, 3),
        bbox(10, 98, 20, 30, 4),
    ];
    assign_reading_order(&mut g);
    let order: Vec<(u32, u32, u32)> = g.iter().map(|b| (b.label, b.row, b.col)).collect();
    assert_eq!(order, vec![(3, 0, 0), (2, 0, 1), (4, 1, 0), (1, 1, 1)]);
}

#[test]
fn reading_order_of_nothing_is_nothing() {
    let mut g: Vec<GlyphBbox> = Vec::new();
    assign_reading_order(&mut g);
    assert!(g.is_empty());
}

#[test]
fn reading_order_tolerance_is_two_thirds_of_median_height() {
    // Median height 30: tolerance 20. A center 20 below stays in the row, 21 below does not.
    let mut g = vec![bbox(0, 0, 10, 30, 1), bbox(20, 20, 10, 30, 2), bbox(40, 41, 10, 30, 3)];
    assign_reading_order(&mut g);
    let rows: Vec<(u32, u32)> = g.iter().map(|b| (b.label, b.row)).collect();
    assert_eq!(rows, vec![(1, 0), (2, 0), (3, 1)]);
}

#[test]
fn boxes_from_a_label_image() {
    // 4 x 3 labels: label 1 an L shape, label 2 a single pixel, label 3 two pixels.
    let labels = LabelImage::from_raw(4, 3, vec![
        1, 0, 0, 2, //
        1, 1, 0, 0, //
        0, 0, 3, 3, //
    ])
    .unwrap();
    let boxes = glyphs_from_labels(&labels, 2, 10);
    assert_eq!(boxes.len(), 2);
    assert_eq!(boxes[0], GlyphBbox { x: 0, y: 0, w: 2, h: 2, area: 3, row: 0, col: 0, label: 1 });
    assert_eq!(boxes[1], GlyphBbox { x: 2, y: 2, w: 2, h: 1, area: 2, row: 0, col: 0, label: 3 });
    let all = glyphs_from_labels(&labels, 0, u32::MAX);
    assert_eq!(all.len(), 3);
    assert_eq!(all[1], GlyphBbox { x: 3, y: 0, w: 1, h: 1, area: 1, row: 0, col: 0, label: 2 });
}

#[test]
fn area_filter_drops_noise_and_large_elements() {
    let labels = LabelImage::from_raw(3, 1, vec![1, 2, 2]).unwrap();
    assert_eq!(glyphs_from_labels(&labels, 2, 2).len(), 1);
    assert_eq!(glyphs_from_labels(&labels, 3, 9).len(), 0);
    assert_eq!(glyphs_from_labels(&labels, 1, 1)[0].label, 1);
}

#[test]
fn find_glyphs_on_two_squares() {
    let img = specimen(40, 20, &[(2, 3, 6, 6), (20, 4, 8, 8)]);
    let (boxes, labels) = find_glyphs(&img, 10, 1000, 5);
    assert_eq!(labels.width, 40);
    assert_eq!(labels.height, 20);
    assert_eq!(boxes.len(), 2);
    assert_eq!((boxes[0].x, boxes[0].y, boxes[0].w, boxes[0].h, boxes[0].area), (2, 3, 6, 6, 36));
    assert_eq!((boxes[1].x, boxes[1].y, boxes[1].w, boxes[1].h, boxes[1].area), (20, 4, 8, 8, 64));
    assert_eq!((boxes[0].row, boxes[0].col, boxes[1].row, boxes[1].col), (0, 0, 0, 1));
    let (again, _) = segment_image(&img, &SegmentConfig { min_area: 10, max_area: 1000, block_radius: 5, padding: 2 });
    assert_eq!(again, boxes);
}

#[test]
fn extract_glyph_masks_neighbours() {
    // Two squares 14 pixels apart: the second lies beyond the grown mask of the first.
    let img = specimen(30, 10, &[(2, 2, 4, 4), (20, 2, 4, 4)]);
    let (boxes, labels) = find_glyphs(&img, 4, 100, 5);
    assert_eq!(boxes.len(), 2);
    let out = extract_glyph(&img, &boxes[0], 2, &labels);
    assert_eq!((out.width, out.height), (8, 8));
    // Ink of the glyph is kept.
    assert_eq!(out.get_pixel(2, 2), 0);
    // Far corner inside the dilation radius keeps the (white) gray value.
    assert_eq!(out.get_pixel(7, 7), 255);
    let out2 = extract_glyph(&img, &boxes[1], 30, &labels);
    assert_eq!((out2.width, out2.height), (30, 10));
    // The first square is more than 8 pixels from the second: masked white.
    assert_eq!(out2.get_pixel(2, 2), 255);
    assert_eq!(out2.get_pixel(21, 3), 0);
}

#[test]
fn entries_are_numbered_in_order() {
    let boxes = vec![bbox(1, 2, 3, 4, 7), bbox(5, 6, 7, 8, 9)];
    let e = entries_from_boxes(&boxes);
    assert_eq!(e[0].id, "glyph_0001");
    assert_eq!(e[0].file, "glyph_0001.png");
    assert_eq!(e[1].id, "glyph_0002");
    assert_eq!(e[1].bbox, BboxRecord { x: 5, y: 6, w: 7, h: 8 });
    assert_eq!(e[1].area_px, 56);
    assert!(e[1].unicode.is_none());
}

#[test]
fn sequence_labels_in_reading_order_and_leaves_the_rest() {
    let mut g = vec![entry("glyph_0001"), entry("glyph_0002"), entry("glyph_0003")];
    apply_sequence(&mut g, "Ab");
    assert_eq!(g[0].unicode.as_deref(), Some("U+0041"));
    assert_eq!(g[0].name.as_deref(), Some("LATIN CAPITAL LETTER A"));
    assert_eq!(g[1].unicode.as_deref(), Some("U+0062"));
    assert_eq!(g[1].name.as_deref(), Some("LATIN SMALL LETTER B"));
    assert!(g[2].unicode.is_none());
    let mut short = vec![entry("glyph_0001")];
    apply_sequence(&mut short, "xyz");
    assert_eq!(short[0].unicode.as_deref(), Some("U+0078"));
}

#[test]
fn mapping_labels_by_id() {
    let mut g = vec![entry("glyph_0001"), entry("glyph_0002")];
    g[1].unicode = Some("U+0042".to_string());
    let entries = vec![
        AssignmentEntry { id: "glyph_0002".to_string(), unicode: None, name: Some("X".to_string()) },
        AssignmentEntry { id: "glyph_0009".to_string(), unicode: Some("U+0026".to_string()), name: None },
    ];
    apply_mapping(&mut g, &entries);
    assert!(g[0].unicode.is_none());
    assert!(g[1].unicode.is_none());
    assert_eq!(g[1].name.as_deref(), Some("X"));
}

#[test]
fn assignments_prefer_the_sequence() {
    let mut g = vec![entry("glyph_0001")];
    let doc = AssignmentDoc {
        sequence: Some("&".to_string()),
        entries: Some(vec![AssignmentEntry { id: "glyph_0001".to_string(), unicode: Some("U+0041".to_string()), name: None }]),
    };
    apply_assignments(&mut g, &doc);
    assert_eq!(g[0].unicode.as_deref(), Some("U+0026"));
    assert_eq!(g[0].name.as_deref(), Some("AMPERSAND"));
    let none = AssignmentDoc { sequence: None, entries: None };
    apply_assignments(&mut g, &none);
    assert_eq!(g[0].unicode.as_deref(), Some("U+0026"));
}

#[test]
fn rename_targets_are_glyph_names() {
    let mut g = entry("glyph_0001");
    assert_eq!(rename_target(&g), None);
    g.unicode = Some("U+0041".to_string());
    g.name = Some("LATIN CAPITAL LETTER A".to_string());
    assert_eq!(rename_target(&g), Some("A.png".to_string()));
    g.file = "A.png".to_string();
    assert_eq!(rename_target(&g), None);
    g.unicode = Some("U+0026".to_string());
    assert_eq!(rename_target(&g), Some("ampersand.png".to_string()));
    g.unicode = Some("U+00DF".to_string());
    assert_eq!(rename_target(&g), Some("germandbls.png".to_string()));
    g.unicode = Some("U+00B6".to_string());
    assert_eq!(rename_target(&g), Some("uni00B6.png".to_string()));
    g.unicode = Some("../x".to_string());
    assert_eq!(rename_target(&g), Some("___X.png".to_string()));
}

#[test]
fn agl_names_of_codepoints() {
    assert_eq!(agl_name("U+0041"), "A");
    assert_eq!(agl_name("u+0061"), "a");
    assert_eq!(agl_name("U+0030"), "zero");
    assert_eq!(agl_name("U+0020"), "space");
    assert_eq!(agl_name("U+005C"), "backslash");
    assert_eq!(agl_name("U+007E"), "asciitilde");
    assert_eq!(agl_name("U+00E9"), "uni00E9");
    assert_eq!(agl_name("U+0007"), "uni0007");
    assert_eq!(agl_name("U+1F600"), "u1F600");
    assert_eq!(agl_name("U+D800"), "U+D800");
    assert_eq!(agl_name("U+D800").len(), 6);
}

#[test]
fn populate_fills_glyph_names_of_labelled_glyphs() {
    let mut g = vec![entry("glyph_0001"), entry("glyph_0002")];
    g[0].unicode = Some("U+0026".to_string());
    populate_glyph_names(&mut g);
    assert_eq!(g[0].glyph_name.as_deref(), Some("ampersand"));
    assert!(g[1].glyph_name.is_none());
    assert_eq!(g[0].file, "glyph_0001.png");
}

#[test]
fn unicode_filename_is_a_single_safe_name() {
    assert_eq!(unicode_filename("../x", "a/b"), "___X_a_b.png");
    assert_eq!(unicode_filename("U+002F", "SOLIDUS"), "U+002F_SOLIDUS.png");
    assert_eq!(unicode_filename("U+0000", "NUL"), "U+0000_NUL.png");
    assert_eq!(unicode_filename("U+00-41", "AB"), "U+00-41_AB.png");
    assert_eq!(unicode_filename("a.b.", "x"), "A.B._x.png");
    assert_eq!(agl_name("x.y."), "X.Y_");
    let f = unicode_filename("..\\..", "..");
    assert!(!f.contains('/') && !f.contains('\\') && !f.contains(".."));
}

#[test]
fn unlabeled_and_all_indices() {
    let mut g = vec![entry("a"), entry("b"), entry("c")];
    g[1].unicode = Some("U+0041".to_string());
    assert_eq!(unlabeled_indices(&g), vec![0, 2]);
    assert_eq!(all_indices(3), vec![0, 1, 2]);
    record_label(&mut g, 2, "U+0043".to_string(), "C".to_string(), 0.75f32.to_bits());
    assert_eq!(unlabeled_indices(&g), vec![0]);
    assert_eq!(g[2].confidence_bits.map(f32::from_bits), Some(0.75));
}

#[test]
fn reply_cleaning_strips_fences_and_space() {
    assert_eq!(clean_reply("```json\n{\"unicode\": \"U+0041\"}\n```\n"), "{\"unicode\": \"U+0041\"}");
    assert_eq!(clean_reply("  ```\n{}```"), "{}");
    assert_eq!(clean_reply("{}"), "{}");
    assert_eq!(clean_reply("``````"), "");
    assert_eq!(clean_reply("\u{3000}x\u{a0}"), "x");
}

#[test]
fn reply_fallbacks() {
    assert_eq!(reply_label(&None, &None), ("U+FFFD".to_string(), "UNKNOWN".to_string()));
    assert_eq!(
        reply_label(&Some("u+00e9".to_string()), &Some("E ACUTE".to_string())),
        ("U+00E9".to_string(), "E ACUTE".to_string())
    );
}

#[test]
fn image_payload_is_standard_base64() {
    assert_eq!(image_payload(b"Man"), "TWFu");
    assert_eq!(image_payload(b"Ma"), "TWE=");
    assert_eq!(image_payload(&[0x89, b'P', b'N', b'G']), "iVBORw==");
    assert_eq!(image_payload(&[]), "");
}

#[test]
fn extract_glyph_keeps_the_grown_edge() {
    // A light gray pixel right of the square is paper to the threshold, so it carries no
    // label; it lies within 8 pixels of the glyph, so the crop keeps its gray value.
    let mut img = specimen(30, 12, &[(3, 3, 4, 4)]);
    img.pixels[(4 * 30 + 8) as usize] = 250;
    let (boxes, labels) = find_glyphs(&img, 4, 100, 5);
    assert_eq!(boxes.len(), 1);
    assert_eq!(labels.get_pixel(8, 4), 0);
    let out = extract_glyph(&img, &boxes[0], 2, &labels);
    assert_eq!((out.width, out.height), (8, 8));
    assert_eq!(out.get_pixel(7, 3), 250);
    assert_eq!(out.get_pixel(2, 2), 0);
}

#[test]
fn labelled_character_names_its_file() {
    for c in ['A', 'z', '7', 'é', '&', ' '] {
        let (unicode, name) = char_unicode_info(c);
        let expected_short = if c.is_alphanumeric() { c.to_string() } else { name.replace(|ch: char| !ch.is_alphanumeric(), "_") };
        assert_eq!(codepoint_char(&unicode), if c.is_alphanumeric() { Some(c) } else { None });
        assert_eq!(unicode_filename(&unicode, &name), format!("{}_{}.png", unicode, expected_short));
    }
}

#[test]
fn rasters_need_exactly_width_times_height_pixels() {
    assert!(GrayImage::from_raw(2, 3, vec![0; 6]).is_some());
    assert!(GrayImage::from_raw(2, 3, vec![0; 5]).is_none());
    assert!(GrayImage::from_raw(2, 3, vec![0; 7]).is_none());
    assert!(LabelImage::from_raw(0, 5, vec![]).is_some());
    assert!(LabelImage::from_raw(1, 1, vec![]).is_none());
    let g = GrayImage::from_raw(2, 2, vec![1, 2, 3, 4]).unwrap();
    assert_eq!(g.get_pixel(1, 0), 2);
    assert_eq!(g.get_pixel(0, 1), 3);
}

#[test]
fn extract_glyph_whitens_a_close_neighbour() {
    // Two squares 3 pixels apart: the second lies within 8 pixels of the first, yet its ink
    // carries another label and comes out white in the crop of the first.
    let img = specimen(24, 8, &[(2, 2, 4, 4), (9, 2, 4, 4)]);
    let (boxes, labels) = find_glyphs(&img, 4, 100, 5);
    assert_eq!(boxes.len(), 2);
    assert_ne!(labels.get_pixel(10, 3), labels.get_pixel(3, 3));
    let out = extract_glyph(&img, &boxes[0], 8, &labels);
    assert_eq!((out.width, out.height), (14, 8));
    assert_eq!(out.get_pixel(3, 3), 0);
    assert_eq!(out.get_pixel(10, 3), 255);
    assert_eq!(out.get_pixel(7, 3), 255);
}

#[test]
fn reading_order_second_pass_changes_nothing() {
    // Ties on purpose: equal centers, equal left edges, a box of its own row.
    let mut g = vec![
        bbox(30, 10, 10, 20, 1),
        bbox(30, 12, 10, 16, 2),
        bbox(5, 10, 10, 20, 3),
        bbox(5, 60, 10, 20, 4),
        bbox(30, 58, 10, 24, 5),
        bbox(30, 10, 10, 20, 6),
    ];
    assign_reading_order(&mut g);
    let once = g.clone();
    assign_reading_order(&mut g);
    assert_eq!(g, once);
    let order: Vec<u32> = once.iter().map(|b| b.label).collect();
    assert_eq!(order, vec![3, 1, 2, 6, 4, 5]);
}

#[test]
fn distinct_characters_have_distinct_names() {
    let chars: Vec<char> = (0u32..0x300).filter_map(char::from_u32).collect();
    let names: Vec<String> = chars.iter().map(|&c| unicode_char_name(c)).collect();
    for i in 0..names.len() {
        for j in i + 1..names.len() {
            assert_ne!(names[i], names[j], "{:?} and {:?}", chars[i], chars[j]);
        }
    }
}

#[test]
fn segment_image_gives_the_segmentation_of_find_glyphs() {
    let img = specimen(30, 12, &[(2, 2, 5, 5), (3, 7, 2, 3), (18, 3, 6, 6)]);
    let config = SegmentConfig { min_area: 4, max_area: 500, block_radius: 4, padding: 1 };
    let (boxes, labels) = segment_image(&img, &config);
    let (boxes2, labels2) = find_glyphs(&img, 4, 500, 4);
    assert_eq!(boxes, boxes2);
    assert_eq!(labels.labels, labels2.labels);
    // The two touching rectangles form one component.
    assert_eq!(boxes.len(), 2);
    assert_eq!((boxes[0].x, boxes[0].y, boxes[0].w, boxes[0].h), (2, 2, 5, 8));
}

#[test]
fn assignments_file_with_a_sequence() {
    let doc = read_assignments(r#"{"sequence": "AB", "other": 1}"#).unwrap();
    assert_eq!(doc.sequence.as_deref(), Some("AB"));
    assert_eq!(doc.entries.as_ref().map(|e| e.len()), Some(2));
}

#[test]
fn assignments_file_with_a_mapping() {
    let doc = read_assignments(
        r#"{"glyph_0002": {"unicode": "U+0042", "name": "LATIN CAPITAL LETTER B"},
            "glyph_0001": {"unicode": "U+0041", "name": 7}, "sequence": 3}"#,
    )
    .unwrap();
    assert!(doc.sequence.is_none());
    let e = doc.entries.unwrap();
    assert_eq!(e.len(), 3);
    let g1 = e.iter().find(|x| x.id == "glyph_0001").unwrap();
    assert_eq!(g1.unicode.as_deref(), Some("U+0041"));
    assert!(g1.name.is_none());
    let g2 = e.iter().find(|x| x.id == "glyph_0002").unwrap();
    assert_eq!(g2.name.as_deref(), Some("LATIN CAPITAL LETTER B"));
    let s = e.iter().find(|x| x.id == "sequence").unwrap();
    assert!(s.unicode.is_none() && s.name.is_none());
}

#[test]
fn assignments_file_that_is_no_object_or_no_json() {
    assert!(read_assignments("not json").is_none());
    let doc = read_assignments("[1, 2]").unwrap();
    assert!(doc.sequence.is_none());
    assert!(doc.entries.is_none());
}

#[test]
fn reply_members_are_read_after_cleaning() {
    let v = read_reply("```json\n{\"unicode\": \"u+0041\", \"name\": \"LATIN CAPITAL LETTER A\", \"confidence\": 0.95}\n```").unwrap();
    let (u, n) = reply_fields(&v);
    assert_eq!(u.as_deref(), Some("u+0041"));
    assert_eq!(n.as_deref(), Some("LATIN CAPITAL LETTER A"));
    assert_eq!(number_text_member(&v, &"confidence".to_string()).as_deref(), Some("0.95"));
    assert_eq!(string_member(&v, &"confidence".to_string()), None);
    let (u2, n2) = reply_fields(&read_reply("{\"unicode\": 5}").unwrap());
    assert_eq!((u2, n2), (None, None));
    assert!(read_reply("I think it is an A").is_none());
    assert!(matches!(read_reply(" 12 "), Some(JsonValue::Number(ref t)) if t == "12"));
}
