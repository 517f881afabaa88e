use assetpacker::bitmap::Bitmap;
use assetpacker::gather::{
    dir_path, entry_named, file_entry, image_asset, image_of_decoded, is_font_entry,
    is_image_entry,
    load_font_asset, load_image_asset, rgba_bitmap, AssetPath, GatherError, GatheredAssets,
    GatheredEntry,
};
use assetpacker::text::{compare_text, find_dot, push_decimal, split_file_name, text_is};
use std::path::PathBuf;

fn path_of(segments: &[&str]) -> AssetPath {
    AssetPath { segments: segments.iter().map(|s| s.to_string()).collect() }
}

fn entry(segments: &[&str], flags: &str, extension: &str) -> GatheredEntry {
    GatheredEntry {
        asset_path: path_of(segments),
        path: PathBuf::from("some/file"),
        flags: flags.to_string(),
        extension: extension.to_string(),
    }
}

fn png(width: u32, height: u32, data: Vec<u8>) -> Vec<u8> {
    let picture = image::RgbaImage::from_raw(width, height, data).unwrap();
    let mut bytes = Vec::new();
    picture.write_to(&mut std::io::Cursor::new(&mut bytes), image::ImageFormat::Png).unwrap();
    bytes
}

#[test]
fn ident_is_the_last_segment() {
    let path = path_of(&["sprites", "characters", "hero"]);
    assert_eq!(path.ident(), "hero");
    assert_eq!(path.path(), &["sprites".to_string(), "characters".to_string()]);
    let alone = path_of(&["hero"]);
    assert_eq!(alone.ident(), "hero");
    assert!(alone.path().is_empty());
}

#[test]
fn new_path_has_no_segment() {
    assert!(AssetPath::new().segments.is_empty());
    assert_eq!(AssetPath::new().display(), "");
}

#[test]
fn path_is_shown_with_slashes() {
    assert_eq!(path_of(&["sprites", "characters", "hero"]).display(), "sprites/characters/hero");
    assert_eq!(path_of(&["hero"]).display(), "hero");
}

#[test]
fn child_adds_a_segment() {
    let parent = path_of(&["sprites"]);
    let child = parent.child("hero".to_string());
    assert_eq!(child, path_of(&["sprites", "hero"]));
    assert_eq!(parent, path_of(&["sprites"]));
}

#[test]
fn directory_name_is_put_in_snake_case() {
    let root = AssetPath::new();
    assert_eq!(dir_path(&root, "CoolStuff"), path_of(&["cool_stuff"]));
    assert_eq!(dir_path(&path_of(&["a"]), "Main Menu"), path_of(&["a", "main_menu"]));
}

#[test]
fn file_name_is_cut_at_its_dots() {
    let parts = |name: &str| split_file_name(name).map(|p| (p.0, p.1, p.2));
    let owned = |a: &str, b: &str, c: &str| Some((a.to_string(), b.to_string(), c.to_string()));
    assert_eq!(parts("background.rep.png"), owned("background", "rep", "png"));
    assert_eq!(parts("hero.png"), owned("hero", "", "png"));
    assert_eq!(parts("hero"), None);
    assert_eq!(parts(""), None);
    assert_eq!(parts("hero."), owned("hero", "", ""));
    assert_eq!(parts(".png"), owned("", "", "png"));
    assert_eq!(parts("a..png"), owned("a", "", "png"));
    assert_eq!(parts("a.b.c.d"), owned("a", "b", "c"));
    assert_eq!(parts("größe.repx.png"), owned("größe", "repx", "png"));
}

#[test]
fn first_dot_is_found() {
    assert_eq!(find_dot("a.b.c", 0), 1);
    assert_eq!(find_dot("a.b.c", 1), 1);
    assert_eq!(find_dot("a.b.c", 2), 3);
    assert_eq!(find_dot("a.b.c", 4), 5);
    assert_eq!(find_dot("abc", 0), 3);
    assert_eq!(find_dot("ü.b", 0), 1);
}

#[test]
fn entry_of_a_file_has_name_flags_and_extension() {
    let parent = path_of(&["images", "ui"]);
    let found = file_entry(&parent, "MainMenu.rep.png", PathBuf::from("x/MainMenu.rep.png")).unwrap();
    assert_eq!(found.asset_path, path_of(&["images", "ui", "main_menu"]));
    assert_eq!(found.flags, "rep");
    assert_eq!(found.extension, "png");
    assert_eq!(found.path, PathBuf::from("x/MainMenu.rep.png"));
    let plain = file_entry(&parent, "Arial.ttf", PathBuf::from("Arial.ttf")).unwrap();
    assert_eq!(plain.asset_path.ident(), "arial");
    assert_eq!(plain.flags, "");
    assert_eq!(plain.extension, "ttf");
    assert!(file_entry(&parent, "README", PathBuf::from("README")).is_none());
}

#[test]
fn entry_named_keeps_the_name_as_given() {
    let made = entry_named(
        &path_of(&["a"]),
        "KeptAsIs".to_string(),
        "no".to_string(),
        "png".to_string(),
        PathBuf::from("p"),
    );
    assert_eq!(made.asset_path, path_of(&["a", "KeptAsIs"]));
    assert_eq!(made.flags, "no");
    assert_eq!(made.extension, "png");
}

#[test]
fn extension_tells_images_and_fonts() {
    assert!(is_image_entry(&entry(&["a"], "", "png")));
    assert!(!is_image_entry(&entry(&["a"], "", "PNG")));
    assert!(!is_image_entry(&entry(&["a"], "png", "jpg")));
    assert!(is_font_entry(&entry(&["a"], "", "ttf")));
    assert!(!is_font_entry(&entry(&["a"], "", "otf")));
}

#[test]
fn flags_of_an_image_are_read() {
    let pixels = || Bitmap { width: 1, height: 1, channels: 4, data: vec![1, 2, 3, 4] };
    let flags = |f: &str| {
        let asset = image_asset(entry(&["a"], f, "png"), pixels());
        (asset.repeat_x, asset.repeat_y, asset.no_pack)
    };
    assert_eq!(flags("rep"), (true, true, false));
    assert_eq!(flags("repx"), (true, false, false));
    assert_eq!(flags("repy"), (false, true, false));
    assert_eq!(flags("no"), (false, false, true));
    assert_eq!(flags(""), (false, false, false));
    assert_eq!(flags("other"), (false, false, false));
    assert_eq!(flags("REP"), (false, false, false));
    let asset = image_asset(entry(&["a", "b"], "rep", "png"), pixels());
    assert_eq!(asset.rgba.data, vec![1, 2, 3, 4]);
    assert_eq!(asset.entry.asset_path, path_of(&["a", "b"]));
}

#[test]
fn image_is_read_from_the_bytes_of_its_file() {
    let data: Vec<u8> = (0..24).collect();
    let bytes = png(3, 2, data.clone());
    assert_ne!(bytes, data);
    let asset = load_image_asset(entry(&["a", "dots"], "repx", "png"), &bytes).unwrap();
    assert_eq!((asset.rgba.width, asset.rgba.height, asset.rgba.channels), (3, 2, 4));
    assert_eq!(asset.rgba.data, data);
    assert!(asset.repeat_x && !asset.repeat_y && !asset.no_pack);
    assert_eq!(asset.entry.asset_path.ident(), "dots");
}

#[test]
fn bytes_that_hold_no_image_are_refused() {
    let garbage = vec![1u8, 2, 3, 4, 5];
    assert_eq!(load_image_asset(entry(&["a"], "", "png"), &garbage).err(), Some(GatherError::BadImage));
    assert_eq!(load_image_asset(entry(&["a"], "", "png"), &Vec::new()).err(), Some(GatherError::BadImage));
}

#[test]
fn buffer_of_an_image_needs_all_its_bytes() {
    assert!(rgba_bitmap(0, 1, Vec::new()).is_none());
    assert!(rgba_bitmap(1, 0, Vec::new()).is_none());
    assert!(rgba_bitmap(2, 1, vec![0; 7]).is_none());
    let exact = rgba_bitmap(2, 1, vec![9; 8]).unwrap();
    assert_eq!((exact.width, exact.height, exact.channels), (2, 1, 4));
    assert_eq!(exact.data, vec![9; 8]);
    let longer = rgba_bitmap(1, 1, vec![1, 2, 3, 4, 5, 6]).unwrap();
    assert_eq!(longer.data, vec![1, 2, 3, 4]);
}

#[test]
fn default_flag_marks_the_default_font() {
    let font = load_font_asset(entry(&["fonts", "arial"], "default", "ttf"), vec![1, 2, 3]);
    assert!(font.is_default);
    assert_eq!(font.bytes, vec![1, 2, 3]);
    assert_eq!(font.entry.asset_path.ident(), "arial");
    assert!(!load_font_asset(entry(&["fonts", "mono"], "", "ttf"), Vec::new()).is_default);
    assert!(!load_font_asset(entry(&["fonts", "mono"], "Default", "ttf"), Vec::new()).is_default);
}

#[test]
fn second_image_of_a_name_is_refused() {
    let pixels = || Bitmap { width: 1, height: 1, channels: 4, data: vec![0; 4] };
    let mut assets = GatheredAssets::new();
    assert_eq!(assets.add_image(image_asset(entry(&["a", "hero"], "", "png"), pixels())), Ok(()));
    assert_eq!(assets.add_image(image_asset(entry(&["a", "foe"], "", "png"), pixels())), Ok(()));
    assert_eq!(
        assets.add_image(image_asset(entry(&["b", "hero"], "rep", "png"), pixels())),
        Err(GatherError::DuplicateImage)
    );
    assert_eq!(assets.images.len(), 2);
    assert_eq!(assets.images[0].entry.asset_path, path_of(&["a", "hero"]));
    assert_eq!(assets.images[1].entry.asset_path, path_of(&["a", "foe"]));
    assert!(assets.fonts.is_empty());
}

#[test]
fn second_font_of_a_name_is_refused() {
    let mut assets = GatheredAssets::new();
    assert_eq!(assets.add_font(load_font_asset(entry(&["arial"], "", "ttf"), vec![1])), Ok(()));
    assert_eq!(
        assets.add_font(load_font_asset(entry(&["x", "arial"], "default", "ttf"), vec![2])),
        Err(GatherError::DuplicateFont)
    );
    assert_eq!(assets.add_font(load_font_asset(entry(&["mono"], "", "ttf"), vec![3])), Ok(()));
    assert_eq!(assets.fonts.len(), 2);
    assert_eq!(assets.fonts[0].bytes, vec![1]);
    assert_eq!(assets.fonts[1].bytes, vec![3]);
    // An image and a font may share a name.
    let pixels = Bitmap { width: 1, height: 1, channels: 4, data: vec![0; 4] };
    assert_eq!(assets.add_image(image_asset(entry(&["arial"], "", "png"), pixels)), Ok(()));
}

#[test]
fn texts_are_compared_by_code_points() {
    assert_eq!(compare_text("abc", "abd"), -1);
    assert_eq!(compare_text("abd", "abc"), 1);
    assert_eq!(compare_text("abc", "abc"), 0);
    assert_eq!(compare_text("ab", "abc"), -1);
    assert_eq!(compare_text("abc", "ab"), 1);
    assert_eq!(compare_text("", ""), 0);
    assert_eq!(compare_text("", "a"), -1);
    assert_eq!(compare_text("Z", "a"), -1);
    assert_eq!(compare_text("z", "é"), -1);
    for (a, b) in [("walls", "doors"), ("a", "ab"), ("é", "z"), ("same", "same")] {
        let expected = match a.cmp(b) {
            std::cmp::Ordering::Less => -1,
            std::cmp::Ordering::Equal => 0,
            std::cmp::Ordering::Greater => 1,
        };
        assert_eq!(compare_text(a, b), expected);
    }
    assert!(text_is("png", "png"));
    assert!(!text_is("png", "pn"));
    assert!(!text_is("png", "pnG"));
}

#[test]
fn numbers_are_written_in_decimal() {
    let written = |n: usize| {
        let mut out = String::from("n=");
        push_decimal(&mut out, n);
        out
    };
    assert_eq!(written(0), "n=0");
    assert_eq!(written(7), "n=7");
    assert_eq!(written(10), "n=10");
    assert_eq!(written(1024), "n=1024");
    assert_eq!(written(usize::MAX), format!("n={}", usize::MAX));
}

#[test]
fn catalog_reads_and_adds_images() {
    let mut assets = GatheredAssets::new();
    let first = png(2, 1, vec![1, 2, 3, 4, 5, 6, 7, 8]);
    assert_eq!(assets.gather_image(entry(&["ui", "icon"], "no", "png"), &first), Ok(()));
    assert_eq!(assets.images.len(), 1);
    assert_eq!(assets.images[0].rgba.data, vec![1, 2, 3, 4, 5, 6, 7, 8]);
    assert!(assets.images[0].no_pack);
    // What cannot be read is refused before the name is looked at.
    assert_eq!(
        assets.gather_image(entry(&["ui", "icon"], "", "png"), &vec![0u8; 10]),
        Err(GatherError::BadImage)
    );
    assert_eq!(
        assets.gather_image(entry(&["other", "icon"], "", "png"), &first),
        Err(GatherError::DuplicateImage)
    );
    assert_eq!(assets.gather_image(entry(&["other", "logo"], "rep", "png"), &first), Ok(()));
    assert_eq!(assets.images.len(), 2);
    assert!(assets.images[1].repeat_x && assets.images[1].repeat_y);
}

#[test]
fn catalog_adds_fonts() {
    let mut assets = GatheredAssets::new();
    assert_eq!(assets.gather_font(entry(&["arial"], "default", "ttf"), vec![1, 2]), Ok(()));
    assert_eq!(
        assets.gather_font(entry(&["more", "arial"], "", "ttf"), vec![3]),
        Err(GatherError::DuplicateFont)
    );
    assert_eq!(assets.gather_font(entry(&["mono"], "", "ttf"), vec![4]), Ok(()));
    assert_eq!(assets.fonts.len(), 2);
    assert!(assets.fonts[0].is_default && !assets.fonts[1].is_default);
    assert_eq!(assets.fonts[1].bytes, vec![4]);
}

#[test]
fn copy_of_an_entry_keeps_its_path() {
    let first = entry(&["a", "b"], "rep", "png");
    let second = first.clone();
    assert_eq!(second.path, PathBuf::from("some/file"));
    assert_eq!(second.asset_path, first.asset_path);
    assert_eq!(second.flags, "rep");
    assert_eq!(second.extension, "png");
}

#[test]
fn image_comes_of_what_was_read() {
    let made = image_of_decoded(entry(&["a", "dots"], "rep", "png"), Some((2, 1, vec![7; 8]))).unwrap();
    assert_eq!((made.rgba.width, made.rgba.height, made.rgba.channels), (2, 1, 4));
    assert_eq!(made.rgba.data, vec![7; 8]);
    assert!(made.repeat_x && made.repeat_y && !made.no_pack);
    assert_eq!(made.entry.asset_path.ident(), "dots");
    let longer = image_of_decoded(entry(&["a"], "", "png"), Some((1, 1, vec![1, 2, 3, 4, 5]))).unwrap();
    assert_eq!(longer.rgba.data, vec![1, 2, 3, 4]);
    assert!(!longer.repeat_x && !longer.repeat_y && !longer.no_pack);
}

#[test]
fn nothing_read_gives_no_image() {
    let bad = |decoded| image_of_decoded(entry(&["a"], "", "png"), decoded).err();
    assert_eq!(bad(None), Some(GatherError::BadImage));
    assert_eq!(bad(Some((0, 1, Vec::new()))), Some(GatherError::BadImage));
    assert_eq!(bad(Some((1, 0, Vec::new()))), Some(GatherError::BadImage));
    assert_eq!(bad(Some((2, 2, vec![0; 15]))), Some(GatherError::BadImage));
    assert_eq!(bad(Some((u32::MAX, u32::MAX, vec![0; 16]))), Some(GatherError::BadImage));
}
