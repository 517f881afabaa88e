use assetpacker::bitmap::{fits_memory, Bitmap};
use assetpacker::font::{font_to_sdf_font, is_blank, FontError, Glyph, GlyphField, ALPHABET, FONT_SIZE, SDF_PAD};
use assetpacker::gather::{AssetPath, FontAsset, GatheredAssets, GatheredEntry, ImageAsset};
use assetpacker::layout::PackError;
use assetpacker::order::{compare_categories, packs_before, sort_general};
use assetpacker::pack::{
    atlas_name, find_default_font, next_pow2_number, pack_assets, pad_for_image_asset, BuildError,
    Corner, TextureFlags,
};
use assetpacker::planner::find_tiles_y;
use assetpacker::strips::{
    in_strip_category, lowest_general, measure_strip, same_category, strip_was_opened,
};
use std::path::PathBuf;

fn entry(segments: &[&str], flags: &str, extension: &str) -> GatheredEntry {
    GatheredEntry {
        asset_path: AssetPath { segments: segments.iter().map(|s| s.to_string()).collect() },
        path: PathBuf::from("some/file"),
        flags: flags.to_string(),
        extension: extension.to_string(),
    }
}

fn image(segments: &[&str], width: u32, height: u32, flags: &str) -> ImageAsset {
    let data = (0..width * height * 4).map(|i| (i % 251) as u8).collect();
    ImageAsset {
        rgba: Bitmap { width, height, channels: 4, data },
        entry: entry(segments, flags, "png"),
        repeat_x: flags == "rep" || flags == "repx",
        repeat_y: flags == "rep" || flags == "repy",
        no_pack: flags == "no",
    }
}

fn font(name: &str, is_default: bool) -> FontAsset {
    FontAsset { bytes: vec![0, 1, 0, 0], entry: entry(&[name], "", "ttf"), is_default }
}

fn field(ch: char, width: u32, height: u32) -> GlyphField {
    let data = (0..width * height).map(|i| (ch as u32 + i) as u8).collect();
    GlyphField { ch, field: Bitmap { width, height, channels: 1, data } }
}

fn overlap(a: &Glyph, b: &Glyph) -> bool {
    a.min.x < b.max.x && b.min.x < a.max.x && a.min.y < b.max.y && b.min.y < a.max.y
}

#[test]
fn next_power_of_two_is_the_least_that_reaches() {
    assert_eq!(next_pow2_number(0), 2);
    assert_eq!(next_pow2_number(1), 2);
    assert_eq!(next_pow2_number(2), 2);
    assert_eq!(next_pow2_number(3), 4);
    assert_eq!(next_pow2_number(4), 4);
    assert_eq!(next_pow2_number(880), 1024);
    assert_eq!(next_pow2_number(1024), 1024);
    assert_eq!(next_pow2_number(1025), 2048);
    assert_eq!(next_pow2_number((FONT_SIZE + 2 * SDF_PAD) * 8), 1024);
    assert_eq!(next_pow2_number(usize::MAX / 2 + 1), usize::MAX / 2 + 1);
}

#[test]
fn canvases_are_named_by_their_number() {
    assert_eq!(atlas_name(0), "atlas_0");
    assert_eq!(atlas_name(9), "atlas_9");
    assert_eq!(atlas_name(12), "atlas_12");
    assert_eq!(atlas_name(100), "atlas_100");
}

#[test]
fn margins_depend_on_the_category() {
    assert_eq!(pad_for_image_asset(&image(&["sprites", "hero"], 80, 160, "")), (2, 2));
    assert_eq!(pad_for_image_asset(&image(&["characters", "hero"], 80, 160, "")), (10, 20));
    assert_eq!(pad_for_image_asset(&image(&["a", "characters", "hero"], 7, 15, "")), (0, 1));
    assert_eq!(pad_for_image_asset(&image(&["characters", "b", "hero"], 80, 160, "")), (2, 2));
    assert_eq!(pad_for_image_asset(&image(&["characters"], 80, 160, "")), (2, 2));
    assert_eq!(pad_for_image_asset(&image(&["Characters", "hero"], 80, 160, "")), (2, 2));
}

#[test]
fn flags_have_their_three_values() {
    assert_eq!(TextureFlags::repeat(), TextureFlags { repeat_x: true, repeat_y: true });
    assert_eq!(TextureFlags::repeat_x_only(), TextureFlags { repeat_x: true, repeat_y: false });
    assert_eq!(TextureFlags::no_repeat(), TextureFlags { repeat_x: false, repeat_y: false });
    assert_eq!(TextureFlags::default(), TextureFlags::no_repeat());
}

#[test]
fn memory_holds_what_can_be_addressed() {
    assert!(fits_memory(1024, 1024, 4));
    assert!(fits_memory(0, u32::MAX, 4));
    assert!(!fits_memory(u32::MAX, u32::MAX, 255));
    assert_eq!(
        fits_memory(u32::MAX, u32::MAX, 4),
        (u32::MAX as u128) * (u32::MAX as u128) * 4 <= usize::MAX as u128
    );
}

#[test]
fn bitmap_is_copied_into_another() {
    let mut canvas = Bitmap::new(4, 3, 1);
    assert_eq!(canvas.data, vec![0; 12]);
    let stamp = Bitmap { width: 2, height: 2, channels: 1, data: vec![1, 2, 3, 4] };
    canvas.blit(&stamp, 1, 1);
    assert_eq!(canvas.data, vec![0, 0, 0, 0, 0, 1, 2, 0, 0, 3, 4, 0]);
    canvas.blit(&stamp, 2, 0);
    assert_eq!(canvas.data, vec![0, 0, 1, 2, 0, 1, 3, 4, 0, 3, 4, 0]);
    let mut colours = Bitmap::new(2, 2, 4);
    let pixel = Bitmap { width: 1, height: 1, channels: 4, data: vec![9, 8, 7, 6] };
    colours.blit(&pixel, 1, 1);
    assert_eq!(colours.data, vec![0, 0, 0, 0, 0, 0, 0, 0, 0, 0, 0, 0, 9, 8, 7, 6]);
    let nothing = Bitmap { width: 0, height: 0, channels: 4, data: Vec::new() };
    colours.blit(&nothing, 2, 2);
    assert_eq!(colours.data[12..], [9, 8, 7, 6]);
}

#[test]
fn categories_are_compared_segment_by_segment() {
    let path = |s: &[&str]| AssetPath { segments: s.iter().map(|x| x.to_string()).collect() };
    assert_eq!(compare_categories(&path(&["a", "x"]), &path(&["b", "x"])), -1);
    assert_eq!(compare_categories(&path(&["b", "x"]), &path(&["a", "x"])), 1);
    assert_eq!(compare_categories(&path(&["a", "x"]), &path(&["a", "y"])), 0);
    assert_eq!(compare_categories(&path(&["x"]), &path(&["a", "y"])), -1);
    assert_eq!(compare_categories(&path(&["a", "b", "x"]), &path(&["a", "y"])), 1);
    assert_eq!(compare_categories(&path(&["a", "b", "x"]), &path(&["ab", "y"])), -1);
    for (p, q) in [(vec!["a", "b", "n"], vec!["a", "c", "n"]), (vec!["b", "n"], vec!["a", "z", "n"])] {
        let expected = match p[..p.len() - 1].cmp(&q[..q.len() - 1]) {
            std::cmp::Ordering::Less => -1,
            std::cmp::Ordering::Equal => 0,
            std::cmp::Ordering::Greater => 1,
        };
        assert_eq!(compare_categories(&path(&p), &path(&q)), expected);
    }
}

#[test]
fn order_is_by_category_then_height() {
    let low = image(&["a", "low"], 10, 10, "");
    let high = image(&["a", "high"], 10, 20, "");
    let other = image(&["b", "other"], 10, 30, "");
    assert!(packs_before(&high, &low));
    assert!(!packs_before(&low, &high));
    assert!(!packs_before(&low, &low));
    assert!(packs_before(&low, &other));
    assert!(!packs_before(&other, &high));
    assert!(same_category(&low, &high));
    assert!(!same_category(&low, &other));
}

#[test]
fn sort_keeps_the_order_found_among_equals() {
    let images = vec![
        image(&["b", "i0"], 10, 10, ""),
        image(&["a", "i1"], 10, 20, ""),
        image(&["a", "i2"], 10, 20, ""),
        image(&["a", "i3"], 10, 30, "repx"),
        image(&["a", "i4"], 10, 40, ""),
        image(&["b", "i5"], 10, 10, ""),
        image(&["a", "i6"], 10, 50, "no"),
        image(&["b", "i7"], 10, 11, ""),
    ];
    assert_eq!(sort_general(&images), vec![4, 1, 2, 7, 0, 5]);
    assert_eq!(sort_general(&Vec::new()), Vec::<usize>::new());
}

#[test]
fn strip_is_measured_with_its_gaps() {
    let images = vec![
        image(&["a", "i0"], 64, 20, "repx"),
        image(&["a", "i1"], 32, 30, "repx"),
        image(&["a", "i2"], 64, 40, "repx"),
        image(&["a", "i3"], 64, 50, ""),
        image(&["a", "i4"], 64, 60, "rep"),
        image(&["b", "i5"], 64, 5, "no"),
        image(&["b", "i6"], 9, 7, ""),
    ];
    assert_eq!(measure_strip(&images, 64), Some(64));
    assert_eq!(measure_strip(&images, 32), Some(32));
    assert_eq!(measure_strip(&images, 16), Some(0));
    assert_eq!(lowest_general(&images), 7);
    assert_eq!(lowest_general(&images[..3].iter().map(|i| image(&["a", "x"], i.rgba.width, 1, "repx")).collect()), u32::MAX);
    assert!(!strip_was_opened(&images, 64, 0));
    assert!(strip_was_opened(&images, 64, 1));
    assert!(!strip_was_opened(&images, 32, 1));
    assert!(strip_was_opened(&images, 32, 2));
    assert!(!strip_was_opened(&images, 9, 7));
    assert!(in_strip_category(&images, 64, 3));
    assert!(!in_strip_category(&images, 64, 6));
    assert!(!in_strip_category(&images, 16, 3));
    assert_eq!(find_tiles_y(&images), None);
    let with_y = vec![image(&["a", "i0"], 1, 1, "rep"), image(&["a", "i1"], 1, 1, "repy")];
    assert_eq!(find_tiles_y(&with_y), Some(1));
}

#[test]
fn one_default_font_is_found() {
    assert_eq!(find_default_font(&vec![font("a", false), font("b", true), font("c", false)]), Ok(1));
    assert_eq!(find_default_font(&vec![font("a", true)]), Ok(0));
}

#[test]
fn no_default_font_is_an_error() {
    assert_eq!(find_default_font(&Vec::new()), Err(BuildError::NoDefaultFont));
    assert_eq!(
        find_default_font(&vec![font("a", false), font("b", false)]),
        Err(BuildError::NoDefaultFont)
    );
}

#[test]
fn two_default_fonts_are_an_error() {
    assert_eq!(
        find_default_font(&vec![font("a", true), font("b", false), font("c", true)]),
        Err(BuildError::ManyDefaultFonts)
    );
}

#[test]
fn build_describes_textures_tiles_and_fonts() {
    let gathered = GatheredAssets {
        images: vec![
            image(&["ui", "logo"], 40, 30, "no"),
            image(&["tiles", "grass"], 16, 16, "rep"),
            image(&["ui", "icon"], 8, 8, ""),
            image(&["ui", "banner"], 50, 5, "no"),
        ],
        fonts: vec![font("mono", false), font("arial", true)],
    };
    let (manifest, atlases) = pack_assets(&gathered).unwrap();
    assert_eq!(atlases.len(), 2);
    let textures: Vec<(&str, bool, bool)> =
        manifest.textures.iter().map(|t| (t.0.as_str(), t.1.repeat_x, t.1.repeat_y)).collect();
    assert_eq!(
        textures,
        vec![
            ("atlas_0", true, true),
            ("atlas_1", false, false),
            ("logo", false, false),
            ("banner", false, false)
        ]
    );
    let tiles: Vec<(&str, &str, Corner, Corner)> =
        manifest.tiles.iter().map(|t| (t.0.as_str(), t.1.atlas.as_str(), t.1.min, t.1.max)).collect();
    let at = |x: u32, y: u32| Corner { x, y };
    assert_eq!(
        tiles,
        vec![
            ("grass", "atlas_0", at(0, 0), at(16, 16)),
            ("icon", "atlas_1", at(2, 2), at(10, 10)),
            ("logo", "logo", at(0, 0), at(40, 30)),
            ("banner", "banner", at(0, 0), at(50, 5)),
        ]
    );
    assert_eq!(manifest.fonts, vec!["mono".to_string(), "arial".to_string()]);
    assert_eq!(manifest.default_font, "arial");
    assert_eq!(atlases[0].0.data, gathered.images[1].rgba.data);
}

#[test]
fn build_fails_without_exactly_one_default_font() {
    let none = GatheredAssets { images: vec![image(&["a", "i"], 8, 8, "")], fonts: vec![font("a", false)] };
    assert_eq!(pack_assets(&none).err(), Some(BuildError::NoDefaultFont));
    let empty = GatheredAssets { images: Vec::new(), fonts: Vec::new() };
    assert_eq!(pack_assets(&empty).err(), Some(BuildError::NoDefaultFont));
    let two = GatheredAssets { images: Vec::new(), fonts: vec![font("a", true), font("b", true)] };
    assert_eq!(pack_assets(&two).err(), Some(BuildError::ManyDefaultFonts));
}

#[test]
fn build_fails_where_packing_fails() {
    let gathered = GatheredAssets {
        images: vec![image(&["a", "wide"], 2000, 8, "")],
        fonts: vec![font("a", true)],
    };
    assert_eq!(
        pack_assets(&gathered).err(),
        Some(BuildError::Pack(PackError::ImageTooLarge { image: 0 }))
    );
}

#[test]
fn blank_characters_are_told() {
    assert!(is_blank(' '));
    assert!(is_blank('\n'));
    assert!(is_blank('\t'));
    assert!(!is_blank('a'));
    assert!(!is_blank('_'));
    let blanks: Vec<char> = ALPHABET.chars().filter(|c| is_blank(*c)).collect();
    assert_eq!(blanks, vec![' ', '\n', '\t']);
    assert_eq!(ALPHABET.chars().count(), 91);
}

#[test]
fn space_gets_a_glyph_without_area() {
    let asset = font("arial", true);
    let pieces = vec![field('a', 40, 50), field(' ', 0, 0), field('b', 60, 70)];
    let (made, atlas) = font_to_sdf_font(&asset, &pieces).unwrap();
    assert_eq!(made.glyphs.len(), 3);
    assert_eq!(
        made.glyphs[1],
        Glyph { ch: ' ', is_white_space: true, min: Corner { x: 0, y: 0 }, max: Corner { x: 0, y: 0 } }
    );
    assert_eq!(
        made.glyphs[0],
        Glyph { ch: 'a', is_white_space: false, min: Corner { x: 0, y: 0 }, max: Corner { x: 40, y: 50 } }
    );
    assert_eq!(made.glyphs[2].ch, 'b');
    assert!(!made.glyphs[2].is_white_space);
    assert_eq!(made.glyphs[2].max.x - made.glyphs[2].min.x, 60);
    assert_eq!(made.glyphs[2].max.y - made.glyphs[2].min.y, 70);
    assert!(!overlap(&made.glyphs[0], &made.glyphs[2]));
    assert_eq!(made.name, "arial");
    assert_eq!(made.font_size, 64);
    assert_eq!(made.atlas_size, 1024);
    assert_eq!((atlas.width, atlas.height, atlas.channels), (1024, 1024, 1));
    for (k, glyph) in made.glyphs.iter().enumerate() {
        if glyph.is_white_space {
            continue;
        }
        let piece = &pieces[k].field;
        for y in 0..piece.height {
            for x in 0..piece.width {
                let to = ((glyph.min.y + y) * 1024 + glyph.min.x + x) as usize;
                assert_eq!(atlas.data[to], piece.data[(y * piece.width + x) as usize]);
            }
        }
    }
}

#[test]
fn blank_character_ignores_its_field() {
    let pieces = vec![field('\n', 30, 30), field('x', 33, 34)];
    let (made, atlas) = font_to_sdf_font(&font("f", false), &pieces).unwrap();
    assert_eq!(
        made.glyphs[0],
        Glyph { ch: '\n', is_white_space: true, min: Corner { x: 0, y: 0 }, max: Corner { x: 0, y: 0 } }
    );
    assert_eq!(made.glyphs[1].min, Corner { x: 0, y: 0 });
    assert_eq!(atlas.data[0], pieces[1].field.data[0]);
}

#[test]
fn whole_alphabet_fits_the_atlas() {
    let pieces: Vec<GlyphField> = ALPHABET
        .chars()
        .map(|ch| if is_blank(ch) { field(ch, 0, 0) } else { field(ch, 96, 96) })
        .collect();
    let (made, _) = font_to_sdf_font(&font("f", true), &pieces).unwrap();
    assert_eq!(made.glyphs.len(), pieces.len());
    for i in 0..made.glyphs.len() {
        let glyph = &made.glyphs[i];
        assert_eq!(glyph.ch, pieces[i].ch);
        if glyph.is_white_space {
            continue;
        }
        assert!(glyph.max.x <= 1024 && glyph.max.y <= 1024);
        assert_eq!((glyph.max.x - glyph.min.x, glyph.max.y - glyph.min.y), (96, 96));
        for j in 0..i {
            if !made.glyphs[j].is_white_space {
                assert!(!overlap(glyph, &made.glyphs[j]));
            }
        }
    }
}

#[test]
fn atlas_without_room_is_an_error() {
    let pieces = vec![field('a', 1024, 1024), field(' ', 0, 0), field('b', 1, 1)];
    assert_eq!(font_to_sdf_font(&font("f", true), &pieces).err(), Some(FontError::AtlasFull { glyph: 2 }));
    let wide = vec![field('a', 1025, 1)];
    assert_eq!(font_to_sdf_font(&font("f", true), &wide).err(), Some(FontError::AtlasFull { glyph: 0 }));
    let empty = vec![field('a', 0, 0)];
    assert_eq!(font_to_sdf_font(&font("f", true), &empty).err(), Some(FontError::AtlasFull { glyph: 0 }));
    let none: Vec<GlyphField> = Vec::new();
    assert_eq!(font_to_sdf_font(&font("f", true), &none).unwrap().0.glyphs.len(), 0);
}

#[test]
fn blank_characters_are_those_with_the_white_space_property() {
    let listed = |c: u32| {
        (0x09..=0x0d).contains(&c)
            || c == 0x20
            || c == 0x85
            || c == 0xa0
            || c == 0x1680
            || (0x2000..=0x200a).contains(&c)
            || c == 0x2028
            || c == 0x2029
            || c == 0x202f
            || c == 0x205f
            || c == 0x3000
    };
    let mut blanks = 0;
    for code in 0..=0x10ffffu32 {
        if let Some(ch) = char::from_u32(code) {
            assert_eq!(is_blank(ch), listed(code), "at {code:#x}");
            if is_blank(ch) {
                blanks += 1;
            }
        }
    }
    assert_eq!(blanks, 25);
}
