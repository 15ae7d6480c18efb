use stickermd::assets::{asset_file_name, check_image_path, store_asset_name};
use stickermd::registry::NoteError;

#[test]
fn image_extensions_are_allowed_case_insensitively() {
    assert!(check_image_path("/a/b/photo.png").is_ok());
    assert!(check_image_path("pic.JPG").is_ok());
    assert!(check_image_path("anim.Gif").is_ok());
    assert!(check_image_path("vector.svg").is_ok());
    assert!(check_image_path("shot.webp").is_ok());
    assert!(check_image_path("shot.jpeg").is_ok());
}

#[test]
fn everything_else_is_forbidden() {
    assert_eq!(
        check_image_path("/etc/passwd").unwrap_err(),
        NoteError::ForbiddenExtension("".to_string())
    );
    assert_eq!(
        check_image_path("notes.md").unwrap_err(),
        NoteError::ForbiddenExtension("md".to_string())
    );
    assert_eq!(
        check_image_path("run.EXE").unwrap_err(),
        NoteError::ForbiddenExtension("exe".to_string())
    );
}

#[test]
fn asset_names_keep_stem_and_extension() {
    assert_eq!(asset_file_name("photo.png", "tok"), "photo_tok.png");
    assert_eq!(asset_file_name("a.b.c", "tok"), "a.b_tok.c");
    assert_eq!(asset_file_name("noext", "tok"), "noext_tok.png");
    assert_eq!(asset_file_name("스크린샷.webp", "tok"), "스크린샷_tok.webp");
}

#[test]
fn stored_names_gain_a_fresh_token() {
    let name = store_asset_name("img.png");
    assert!(name.starts_with("img_"));
    assert!(name.ends_with(".png"));
    // stem + '_' + 32-character token + ".png"
    assert_eq!(name.chars().count(), 3 + 1 + 32 + 4);

    // Two stores of the same name must not collide.
    let other = store_asset_name("img.png");
    assert_ne!(name, other);
}
