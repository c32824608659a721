use rawgallery::thumb::{
    derive_thumbnail_from_preview, develop_args, develop_outcome, develop_target, DerivationError,
};

fn png_bytes(width: u32, height: u32) -> Vec<u8> {
    let img = image::RgbImage::from_fn(width, height, |x, y| {
        image::Rgb([(x % 256) as u8, (y % 256) as u8, 128])
    });
    let mut buf: Vec<u8> = Vec::new();
    image::DynamicImage::ImageRgb8(img)
        .write_to(&mut std::io::Cursor::new(&mut buf), image::ImageFormat::Png)
        .unwrap();
    buf
}

#[test]
fn preview_is_scaled_and_reencoded() {
    let preview = png_bytes(1200, 600);
    let thumb = derive_thumbnail_from_preview(&preview, "static/thumb").unwrap();
    assert_ne!(thumb.jpeg, preview);
    let out = image::load_from_memory(&thumb.jpeg).unwrap();
    assert_eq!(image::guess_format(&thumb.jpeg).unwrap(), image::ImageFormat::Jpeg);
    // The 2:1 preview is scaled down to fit the 1000-pixel bound.
    assert_eq!(out.width(), 1000);
    assert_eq!(out.height(), 500);
    // The reported dimensions are the encoded image's own.
    assert_eq!(thumb.width, 1000);
    assert_eq!(thumb.height, 500);
}

#[test]
fn small_previews_still_produce_a_thumbnail() {
    let preview = png_bytes(8, 6);
    let thumb = derive_thumbnail_from_preview(&preview, "d").unwrap();
    let out = image::load_from_memory(&thumb.jpeg).unwrap();
    assert!(out.width() <= 1000 && out.height() <= 1000);
    assert!(thumb.width >= 1 && thumb.width <= 1000);
    assert!(thumb.height >= 1 && thumb.height <= 1000);
    assert_eq!((thumb.width, thumb.height), (out.width(), out.height()));
}

#[test]
fn garbage_bytes_do_not_decode() {
    let junk: Vec<u8> = vec![1, 2, 3, 4, 5, 6, 7, 8];
    assert_eq!(
        derive_thumbnail_from_preview(&junk, "d").unwrap_err(),
        DerivationError::DecodeFailed
    );
}

#[test]
fn development_succeeds_only_with_clean_exit_and_output() {
    assert!(develop_outcome(true, true).is_ok());
    assert_eq!(develop_outcome(false, true).unwrap_err(), DerivationError::ToolFailed);
    assert_eq!(develop_outcome(false, false).unwrap_err(), DerivationError::ToolFailed);
    assert_eq!(develop_outcome(true, false).unwrap_err(), DerivationError::OutputMissing);
}

#[test]
fn thumbnail_names_are_fresh_tokens_in_the_output_directory() {
    let name = develop_target("static/thumb");
    let prefix = "static/thumb/";
    let suffix = ".jpg";
    assert!(name.starts_with(prefix));
    assert!(name.ends_with(suffix));
    let token = &name[prefix.len()..name.len() - suffix.len()];
    assert_eq!(token.len(), 36);
    assert!(!token.contains('/'));
    let second = develop_target("static/thumb");
    assert_ne!(name, second);
}

#[test]
fn derived_files_sit_in_the_given_directory() {
    let preview = png_bytes(16, 16);
    let thumb = derive_thumbnail_from_preview(&preview, "out").unwrap();
    assert!(thumb.file_name.starts_with("out/"));
    assert!(thumb.file_name.ends_with(".jpg"));
    assert_eq!(thumb.file_name.len(), "out/".len() + 36 + ".jpg".len());
}

#[test]
fn development_arguments_are_exact() {
    let args = develop_args("/p/a.cr2", "/t/out.jpg");
    assert_eq!(
        args,
        vec![
            "/p/a.cr2",
            "/p/a.cr2.xmp",
            "/t/out.jpg",
            "--width",
            "640",
            "--height",
            "640",
        ]
    );
}
