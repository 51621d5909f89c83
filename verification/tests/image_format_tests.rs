use eous_modify::image_format::{extension_for_mime, format_table, mime_for_extension, supported_extensions};
use eous_modify::images::image_data_url;

#[test]
fn maps_both_directions_for_a_simple_format() {
    assert_eq!(mime_for_extension("webp"), Some("image/webp"));
    assert_eq!(extension_for_mime("image/webp"), Some("webp"));
}

#[test]
fn every_jpeg_spelling_reads_as_jpeg_and_writes_as_jpg() {
    for ext in ["jpg", "jpeg", "jpe", "jif", "jfif"] {
        assert_eq!(mime_for_extension(ext), Some("image/jpeg"), "{ext}");
    }
    assert_eq!(extension_for_mime("image/jpeg"), Some("jpg"));
}

#[test]
fn apng_is_saved_as_png() {
    assert_eq!(extension_for_mime("image/apng"), Some("png"));
}

#[test]
fn extensions_and_types_are_matched_case_insensitively() {
    assert_eq!(mime_for_extension("PNG"), Some("image/png"));
    assert_eq!(extension_for_mime("IMAGE/PNG"), Some("png"));
}

#[test]
fn refuses_what_it_does_not_know() {
    assert_eq!(mime_for_extension("psd"), None);
    assert_eq!(extension_for_mime("image/vnd.adobe.photoshop"), None);
    assert_eq!(extension_for_mime("application/octet-stream"), None);
}

#[test]
fn every_readable_format_is_also_writable() {
    for (ext, mime) in format_table() {
        assert!(
            extension_for_mime(mime).is_some(),
            "{mime} (from .{ext}) has no extension to save under",
        );
    }
}

#[test]
fn supported_extensions_are_sorted_once_each() {
    assert_eq!(
        supported_extensions(),
        "apng, avif, bmp, gif, heic, heif, ico, jfif, jif, jpe, jpeg, jpg, jxl, png, svg, tif, tiff, webp"
    );
}

#[test]
fn mime_types_are_trimmed_before_lookup() {
    assert_eq!(extension_for_mime("  image/tiff \n"), Some("tiff"));
    assert_eq!(extension_for_mime("image/vnd.microsoft.icon"), Some("ico"));
    assert_eq!(extension_for_mime("image/x-icon"), Some("ico"));
}

#[test]
fn a_supported_image_becomes_a_data_url() {
    assert_eq!(
        image_data_url(r"C:\mods\Skin\preview.PNG", b"png"),
        Ok("data:image/png;base64,cG5n".to_string())
    );
}

#[test]
fn an_unsupported_image_is_refused_with_the_list() {
    let err = image_data_url("preview.psd", b"x").unwrap_err();
    assert_eq!(
        err,
        format!("Eous doesn't support .psd images. Try one of: {}.", supported_extensions())
    );
    let none = image_data_url("preview", b"x").unwrap_err();
    assert!(none.starts_with("Eous doesn't support . images."));
}

#[test]
fn a_saved_extension_reads_back_as_the_same_type() {
    for m in [
        "image/png", "image/jpeg", "image/webp", "image/gif", "image/svg+xml", "image/x-icon", "image/bmp",
        "image/avif", "image/heic", "image/heif", "image/jxl", "image/tiff", " IMAGE/WEBP ",
    ] {
        let e = extension_for_mime(m).unwrap();
        assert_eq!(mime_for_extension(e).unwrap(), m.trim().to_lowercase());
    }
    assert_eq!(mime_for_extension(extension_for_mime("image/apng").unwrap()), Some("image/png"));
    assert_eq!(mime_for_extension(extension_for_mime("image/vnd.microsoft.icon").unwrap()), Some("image/x-icon"));
}

#[test]
fn every_type_read_from_a_file_can_be_written_back() {
    for (ext, _) in format_table() {
        for e in [ext.to_string(), ext.to_uppercase()] {
            let m = mime_for_extension(&e).unwrap();
            assert!(extension_for_mime(m).is_some());
        }
    }
}

#[test]
fn the_bytes_are_sent_in_padded_standard_base64() {
    assert_eq!(image_data_url("a.png", b"Man").unwrap(), "data:image/png;base64,TWFu");
    assert_eq!(image_data_url("a.png", b"Ma").unwrap(), "data:image/png;base64,TWE=");
    assert_eq!(image_data_url("a.png", b"M").unwrap(), "data:image/png;base64,TQ==");
    assert_eq!(image_data_url("a.gif", &[0xfb, 0xff, 0xbf, 0x00]).unwrap(), "data:image/gif;base64,+/+/AA==");
    assert_eq!(image_data_url("a.gif", b"").unwrap(), "data:image/gif;base64,");
}
