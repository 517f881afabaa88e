use assetpacker::bitmap::Bitmap;
use assetpacker::gather::{AssetPath, GatheredEntry, ImageAsset};
use assetpacker::layout::{CanvasPlan, Layout, PackError, Spot};
use assetpacker::pack::{make_texture_atlases, name_tiles, pad_for_image_asset, TextureFlags};
use assetpacker::paint::{paint, paint_canvas};
use assetpacker::planner::plan_layout;
use std::path::PathBuf;

fn picture(category: &[&str], name: &str, width: u32, height: u32, flags: &str) -> ImageAsset {
    let mut segments: Vec<String> = category.iter().map(|s| s.to_string()).collect();
    segments.push(name.to_string());
    let mut data = Vec::new();
    let seed = name.len() as u32;
    for y in 0..height {
        for x in 0..width {
            data.push((x + seed) as u8);
            data.push((y + 2 * seed) as u8);
            data.push((x + y) as u8);
            data.push(255);
        }
    }
    ImageAsset {
        rgba: Bitmap { width, height, channels: 4, data },
        entry: GatheredEntry {
            asset_path: AssetPath { segments },
            path: PathBuf::from(format!("{name}.png")),
            flags: flags.to_string(),
            extension: "png".to_string(),
        },
        repeat_x: flags == "rep" || flags == "repx",
        repeat_y: flags == "rep" || flags == "repy",
        no_pack: flags == "no",
    }
}

fn place(layout: &Layout, i: usize) -> Spot {
    layout.spots[i].expect("the image has a place")
}

fn overlap(a: (u32, u32, u32, u32), b: (u32, u32, u32, u32)) -> bool {
    a.0 < b.2 && b.0 < a.2 && a.1 < b.3 && b.1 < a.3
}

fn rect(images: &[ImageAsset], layout: &Layout, i: usize) -> (u32, u32, u32, u32) {
    let spot = place(layout, i);
    (spot.x, spot.y, spot.x + images[i].rgba.width, spot.y + images[i].rgba.height)
}

fn own_rect(images: &[ImageAsset], layout: &Layout, i: usize) -> (u32, u32, u32, u32) {
    let r = rect(images, layout, i);
    let image = &images[i];
    if image.repeat_x || image.repeat_y {
        return r;
    }
    let (pad_x, pad_y) = pad_for_image_asset(image);
    assert!(r.0 >= pad_x && r.1 >= pad_y);
    (r.0 - pad_x, r.1 - pad_y, r.2 + pad_x, r.3 + pad_y)
}

fn widened(r: (u32, u32, u32, u32), by: u32) -> (u32, u32, u32, u32) {
    (r.0 - by, r.1 - by, r.2 + by, r.3 + by)
}

fn check_sound(images: &[ImageAsset], layout: &Layout) {
    assert_eq!(layout.spots.len(), images.len());
    for i in 0..images.len() {
        assert_eq!(layout.spots[i].is_some(), !images[i].no_pack);
        if images[i].no_pack {
            continue;
        }
        let spot = place(layout, i);
        let canvas = layout.canvases[spot.canvas];
        let r = rect(images, layout, i);
        assert!(r.2 <= canvas.width && r.3 <= canvas.height);
        let own = own_rect(images, layout, i);
        assert!(own.2 <= canvas.width && own.3 <= canvas.height);
        for j in 0..i {
            if images[j].no_pack {
                continue;
            }
            if place(layout, j).canvas == spot.canvas {
                assert!(!overlap(r, rect(images, layout, j)), "images {j} and {i} overlap");
                assert!(
                    !overlap(own, own_rect(images, layout, j)),
                    "the margins of images {j} and {i} overlap"
                );
            }
        }
    }
}

#[test]
fn two_sprites_share_one_canvas() {
    let images = vec![
        picture(&["sprites"], "small", 300, 100, ""),
        picture(&["sprites"], "large", 300, 200, ""),
    ];
    let layout = plan_layout(&images).unwrap();
    assert_eq!(layout.canvases.len(), 1);
    assert_eq!(
        layout.canvases[0],
        CanvasPlan { width: 1024, height: 1024, flags: TextureFlags { repeat_x: false, repeat_y: false } }
    );
    check_sound(&images, &layout);
    // The taller image is packed first and gets the corner of the canvas.
    assert_eq!(place(&layout, 1), Spot { canvas: 0, x: 2, y: 2 });
    assert_eq!(place(&layout, 0).canvas, 0);
    let a = rect(&images, &layout, 0);
    let b = rect(&images, &layout, 1);
    assert!(a.0 >= 2 && a.1 >= 2 && b.0 >= 2 && b.1 >= 2);
    assert!(a.2 + 2 <= 1024 && a.3 + 2 <= 1024);
    // Each image keeps two pixels free on every side, so the two are four apart.
    assert!(!overlap(widened(a, 2), widened(b, 2)));
}

#[test]
fn two_sprites_are_drawn_and_named() {
    let images = vec![
        picture(&["sprites"], "small", 300, 100, ""),
        picture(&["sprites"], "large", 300, 200, ""),
    ];
    let (atlases, tiles) = make_texture_atlases(&images).unwrap();
    assert_eq!(atlases.len(), 1);
    assert_eq!(tiles.len(), 2);
    assert_eq!(tiles[0].0, "small");
    assert_eq!(tiles[1].0, "large");
    assert_eq!(tiles[1].1.atlas, "atlas_0");
    assert_eq!((tiles[1].1.min.x, tiles[1].1.min.y), (2, 2));
    assert_eq!((tiles[1].1.max.x, tiles[1].1.max.y), (302, 202));
    let texture = &atlases[0].0;
    assert_eq!((texture.width, texture.height, texture.channels), (1024, 1024, 4));
    assert_eq!(texture.data.len(), 1024 * 1024 * 4);
    for (k, (_, tile)) in tiles.iter().enumerate() {
        let image = &images[k].rgba;
        assert_eq!(tile.max.x - tile.min.x, image.width);
        assert_eq!(tile.max.y - tile.min.y, image.height);
        for y in 0..image.height {
            for x in 0..image.width {
                for c in 0..4u32 {
                    let from = ((y * image.width + x) * 4 + c) as usize;
                    let to = (((tile.min.y + y) * 1024 + tile.min.x + x) * 4 + c) as usize;
                    assert_eq!(texture.data[to], image.data[from]);
                }
            }
        }
    }
    // Nothing is drawn into the margin at the corner of the canvas.
    assert_eq!(&texture.data[0..8], &[0u8; 8]);
}

#[test]
fn image_that_repeats_both_ways_gets_own_canvas() {
    let images = vec![picture(&["tiles"], "grass", 64, 64, "rep")];
    let layout = plan_layout(&images).unwrap();
    assert_eq!(
        layout.canvases[0],
        CanvasPlan { width: 64, height: 64, flags: TextureFlags { repeat_x: true, repeat_y: true } }
    );
    assert_eq!(place(&layout, 0), Spot { canvas: 0, x: 0, y: 0 });
    // The canvas that images share is always there, and empty here.
    assert_eq!(layout.canvases.len(), 2);
    assert_eq!(
        layout.canvases[1],
        CanvasPlan { width: 1024, height: 1024, flags: TextureFlags { repeat_x: false, repeat_y: false } }
    );
    let (atlases, tiles) = make_texture_atlases(&images).unwrap();
    assert_eq!(atlases[0].0.data, images[0].rgba.data);
    assert_eq!(atlases[0].1, TextureFlags { repeat_x: true, repeat_y: true });
    assert_eq!(tiles[0].1.atlas, "atlas_0");
    assert_eq!((tiles[0].1.min.x, tiles[0].1.min.y), (0, 0));
    assert_eq!((tiles[0].1.max.x, tiles[0].1.max.y), (64, 64));
    assert!(atlases[1].0.data.iter().all(|b| *b == 0));
}

#[test]
fn forty_strips_are_stacked() {
    let mut images = Vec::new();
    for k in 0..40 {
        images.push(picture(&["walls"], &format!("wall{k}"), 64, 20, "repx"));
    }
    let layout = plan_layout(&images).unwrap();
    assert_eq!(layout.canvases.len(), 2);
    assert_eq!(
        layout.canvases[0],
        CanvasPlan { width: 64, height: 1024, flags: TextureFlags { repeat_x: true, repeat_y: false } }
    );
    for k in 0..40 {
        assert_eq!(place(&layout, k), Spot { canvas: 0, x: 0, y: 22 * k as u32 });
    }
    check_sound(&images, &layout);
}

#[test]
fn low_strip_gets_the_least_height() {
    let images = vec![picture(&["walls"], "wall", 32, 10, "repx")];
    let layout = plan_layout(&images).unwrap();
    assert_eq!(layout.canvases[0].width, 32);
    assert_eq!(layout.canvases[0].height, 256);
}

#[test]
fn strips_are_made_by_width_in_the_order_found() {
    let images = vec![
        picture(&["walls"], "a", 64, 20, "repx"),
        picture(&["walls"], "b", 32, 30, "repx"),
        picture(&["walls"], "c", 64, 40, "repx"),
        picture(&["walls"], "d", 32, 50, "repx"),
    ];
    let layout = plan_layout(&images).unwrap();
    assert_eq!(layout.canvases.len(), 3);
    assert_eq!(layout.canvases[0].width, 64);
    assert_eq!(layout.canvases[1].width, 32);
    assert_eq!(place(&layout, 0), Spot { canvas: 0, x: 0, y: 0 });
    assert_eq!(place(&layout, 2), Spot { canvas: 0, x: 0, y: 22 });
    assert_eq!(place(&layout, 1), Spot { canvas: 1, x: 0, y: 0 });
    assert_eq!(place(&layout, 3), Spot { canvas: 1, x: 0, y: 32 });
    check_sound(&images, &layout);
}

#[test]
fn room_below_a_strip_takes_images_of_its_category() {
    let images = vec![
        picture(&["walls"], "brick", 128, 20, "repx"),
        picture(&["walls"], "sign", 30, 40, ""),
        picture(&["doors"], "gate", 30, 40, ""),
    ];
    let layout = plan_layout(&images).unwrap();
    assert_eq!(layout.canvases.len(), 2);
    assert_eq!(layout.canvases[0].height, 256);
    assert_eq!(place(&layout, 0), Spot { canvas: 0, x: 0, y: 0 });
    // The region below the strip starts at row 22; the image keeps its margin of 2.
    assert_eq!(place(&layout, 1), Spot { canvas: 0, x: 2, y: 24 });
    assert_eq!(place(&layout, 2), Spot { canvas: 1, x: 2, y: 2 });
    check_sound(&images, &layout);
}

#[test]
fn image_too_wide_for_the_room_below_a_strip_waits() {
    let images = vec![
        picture(&["walls"], "brick", 32, 20, "repx"),
        picture(&["walls"], "sign", 30, 40, ""),
    ];
    let layout = plan_layout(&images).unwrap();
    // 30 + 2 * 2 is more than the strip's 32 columns.
    assert_eq!(place(&layout, 1), Spot { canvas: 1, x: 2, y: 2 });
}

#[test]
fn unpacked_image_gets_no_place() {
    let images = vec![
        picture(&["ui"], "logo", 2000, 10, "no"),
        picture(&["ui"], "icon", 16, 16, ""),
    ];
    let layout = plan_layout(&images).unwrap();
    assert!(layout.spots[0].is_none());
    assert_eq!(place(&layout, 1), Spot { canvas: 0, x: 2, y: 2 });
    let (_, tiles) = make_texture_atlases(&images).unwrap();
    assert_eq!(tiles.len(), 1);
    assert_eq!(tiles[0].0, "icon");
}

#[test]
fn character_sheet_keeps_an_eighth_free() {
    let images = vec![picture(&["sprites", "characters"], "hero", 80, 160, "")];
    let layout = plan_layout(&images).unwrap();
    assert_eq!(place(&layout, 0), Spot { canvas: 0, x: 10, y: 20 });
}

#[test]
fn images_are_packed_by_category_then_taller_first() {
    let images = vec![
        picture(&["b"], "low", 10, 10, ""),
        picture(&["a"], "short", 10, 20, ""),
        picture(&["b"], "high", 10, 30, ""),
        picture(&["a"], "tall", 10, 40, ""),
    ];
    let layout = plan_layout(&images).unwrap();
    // "tall" of category "a" is packed first.
    assert_eq!(place(&layout, 3), Spot { canvas: 0, x: 2, y: 2 });
    check_sound(&images, &layout);
}

#[test]
fn full_canvas_rolls_over_to_the_next() {
    let mut images = Vec::new();
    for k in 0..5 {
        images.push(picture(&["big"], &format!("big{k}"), 600, 600, ""));
    }
    let layout = plan_layout(&images).unwrap();
    assert_eq!(layout.canvases.len(), 5);
    for k in 0..5 {
        assert_eq!(place(&layout, k), Spot { canvas: k, x: 2, y: 2 });
    }
    check_sound(&images, &layout);
}

#[test]
fn many_images_never_overlap() {
    let mut images = Vec::new();
    let mut state: u32 = 12345;
    for k in 0..120 {
        state = state.wrapping_mul(1103515245).wrapping_add(12345);
        let width = 8 + (state >> 16) % 120;
        state = state.wrapping_mul(1103515245).wrapping_add(12345);
        let height = 8 + (state >> 16) % 120;
        let category = ["a", "b", "characters"][k % 3];
        let flags = match k % 10 {
            0 => "rep",
            1 | 2 => "repx",
            3 => "no",
            _ => "",
        };
        let width = if flags == "repx" { 64 + 32 * (k as u32 % 2) } else { width };
        images.push(picture(&[category], &format!("image{k}"), width, height, flags));
    }
    let layout = plan_layout(&images).unwrap();
    check_sound(&images, &layout);
    for (i, image) in images.iter().enumerate() {
        if image.repeat_x && image.repeat_y && !image.no_pack {
            let spot = place(&layout, i);
            let canvas = layout.canvases[spot.canvas];
            assert_eq!((canvas.width, canvas.height), (image.rgba.width, image.rgba.height));
            assert_eq!(canvas.flags, TextureFlags { repeat_x: true, repeat_y: true });
            for j in 0..images.len() {
                if j != i && !images[j].no_pack {
                    assert_ne!(place(&layout, j).canvas, spot.canvas);
                }
            }
        }
    }
    for i in 0..images.len() {
        for j in (i + 1)..images.len() {
            let (a, b) = (&images[i], &images[j]);
            if a.repeat_x && !a.repeat_y && b.repeat_x && !b.repeat_y && a.rgba.width == b.rgba.width {
                let (p, q) = (place(&layout, i), place(&layout, j));
                assert_eq!(p.canvas, q.canvas);
                assert_eq!((p.x, q.x), (0, 0));
                assert!(p.y + a.rgba.height + 2 <= q.y);
            }
        }
    }
}

#[test]
fn packing_twice_gives_the_same_result() {
    let make = || {
        vec![
            picture(&["walls"], "brick", 128, 20, "repx"),
            picture(&["walls"], "sign", 30, 40, ""),
            picture(&["tiles"], "grass", 64, 64, "rep"),
            picture(&["doors"], "gate", 300, 400, ""),
            picture(&["doors"], "arch", 500, 900, ""),
            picture(&["doors"], "hall", 700, 900, ""),
        ]
    };
    let first = make_texture_atlases(&make()).unwrap();
    let second = make_texture_atlases(&make()).unwrap();
    assert_eq!(first.0.len(), second.0.len());
    for k in 0..first.0.len() {
        assert_eq!(first.0[k].0.width, second.0[k].0.width);
        assert_eq!(first.0[k].0.height, second.0[k].0.height);
        assert_eq!(first.0[k].0.data, second.0[k].0.data);
        assert_eq!(first.0[k].1, second.0[k].1);
    }
    assert_eq!(first.1.len(), second.1.len());
    for k in 0..first.1.len() {
        assert_eq!(first.1[k].0, second.1[k].0);
        assert_eq!(first.1[k].1.atlas, second.1[k].1.atlas);
        assert_eq!(first.1[k].1.min, second.1[k].1.min);
        assert_eq!(first.1[k].1.max, second.1[k].1.max);
    }
    let a = plan_layout(&make()).unwrap();
    let b = plan_layout(&make()).unwrap();
    assert_eq!(a.canvases, b.canvases);
    assert_eq!(a.spots, b.spots);
}

#[test]
fn image_that_repeats_along_y_is_refused() {
    let images = vec![
        picture(&["a"], "fine", 10, 10, ""),
        picture(&["a"], "column", 10, 10, "repy"),
        picture(&["a"], "other", 10, 10, "repy"),
    ];
    assert_eq!(plan_layout(&images).err(), Some(PackError::RepeatYUnsupported { image: 1 }));
    assert_eq!(
        make_texture_atlases(&images).err(),
        Some(PackError::RepeatYUnsupported { image: 1 })
    );
}

#[test]
fn image_larger_than_a_canvas_is_refused() {
    let images = vec![picture(&["a"], "fine", 10, 10, ""), picture(&["a"], "wide", 1025, 10, "")];
    assert_eq!(plan_layout(&images).err(), Some(PackError::ImageTooLarge { image: 1 }));
    // 1021 columns and two margins of 2 are one more than a canvas has.
    let images = vec![picture(&["a"], "nearly", 10, 1021, "")];
    assert_eq!(plan_layout(&images).err(), Some(PackError::ImageTooLarge { image: 0 }));
    let images = vec![picture(&["a"], "just", 10, 1020, "")];
    assert_eq!(place(&plan_layout(&images).unwrap(), 0), Spot { canvas: 0, x: 2, y: 2 });
}

#[test]
fn strip_wider_than_a_strip_may_be_is_refused() {
    // Planning reads the size of an image only, so the pixels are left out here.
    let mut wide = picture(&["a"], "wide", 1, 1, "repx");
    wide.rgba.width = 0x4000_0001;
    let images = vec![picture(&["a"], "fine", 10, 10, "repx"), wide];
    assert_eq!(plan_layout(&images).err(), Some(PackError::StripTooLarge { image: 1 }));
    let mut tall = picture(&["a"], "tall", 1, 1, "repx");
    tall.rgba.height = 0x4000_0000;
    assert_eq!(plan_layout(&vec![tall]).err(), Some(PackError::StripTooLarge { image: 0 }));
}

#[test]
fn no_image_gives_one_empty_canvas() {
    let images: Vec<ImageAsset> = Vec::new();
    let layout = plan_layout(&images).unwrap();
    assert_eq!(layout.canvases.len(), 1);
    assert!(layout.spots.is_empty());
}

#[test]
fn canvases_of_a_plan_are_drawn() {
    let images = vec![
        picture(&["a"], "one", 2, 1, ""),
        picture(&["a"], "hidden", 1, 1, "no"),
        picture(&["a"], "two", 1, 2, ""),
    ];
    let flags = TextureFlags { repeat_x: false, repeat_y: false };
    let layout = Layout {
        canvases: vec![
            CanvasPlan { width: 3, height: 2, flags },
            CanvasPlan { width: 1, height: 2, flags: TextureFlags { repeat_x: true, repeat_y: false } },
        ],
        spots: vec![Some(Spot { canvas: 0, x: 1, y: 1 }), None, Some(Spot { canvas: 1, x: 0, y: 0 })],
    };
    let one = &images[0].rgba.data;
    let two = &images[2].rgba.data;
    let mut expected = vec![0u8; 3 * 2 * 4];
    expected[16..24].copy_from_slice(one);
    let first = paint_canvas(&images, &layout, 0);
    assert_eq!((first.width, first.height, first.channels), (3, 2, 4));
    assert_eq!(first.data, expected);
    let atlases = paint(&images, &layout);
    assert_eq!(atlases.len(), 2);
    assert_eq!(atlases[0].0.data, expected);
    assert_eq!(atlases[0].1, flags);
    assert_eq!(&atlases[1].0.data, two);
    assert_eq!(atlases[1].1, TextureFlags { repeat_x: true, repeat_y: false });
    let tiles = name_tiles(&images, &layout);
    assert_eq!(tiles.len(), 2);
    assert_eq!((tiles[0].0.as_str(), tiles[0].1.atlas.as_str()), ("one", "atlas_0"));
    assert_eq!((tiles[0].1.min.x, tiles[0].1.min.y, tiles[0].1.max.x, tiles[0].1.max.y), (1, 1, 3, 2));
    assert_eq!((tiles[1].0.as_str(), tiles[1].1.atlas.as_str()), ("two", "atlas_1"));
    assert_eq!((tiles[1].1.min.x, tiles[1].1.min.y, tiles[1].1.max.x, tiles[1].1.max.y), (0, 0, 1, 2));
}
