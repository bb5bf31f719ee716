use fgscsv::config::MediaType;
use fgscsv::media::{join_path, make_media_path};

#[test]
fn make_media_path_builds_directories_and_name() {
    let p = make_media_path("out", "sheet1", "42", &MediaType::Image, 3, "https://x.org/a/pic.png?w=100");
    assert_eq!(p, "out/sheet1/42/image/3.png");
    let p = make_media_path("out/", "s", "i", &MediaType::Video, 0, "https://x.org/clip.tar.gz");
    assert_eq!(p, "out/s/i/video/0.gz");
    let p = make_media_path("", "s", "i", &MediaType::Other, 12, "noext");
    assert_eq!(p, "s/i/other/12.noext");
}

#[test]
fn make_media_path_agrees_with_std_paths() {
    let cases = [
        ("media", "sheet", "id-1", "http://h/p/f.jpeg?x=1.2"),
        ("/abs/dir", "a b", "7", "file"),
        ("d", "/root", "x", "u.v?"),
    ];
    for (dir, sheet, id, url) in cases {
        let ext = url.split('?').next().unwrap_or(url).rsplit('.').next().unwrap_or("jpg");
        let expected = std::path::Path::new(dir)
            .join(sheet)
            .join(id)
            .join("image")
            .join(format!("5.{ext}"));
        let got = make_media_path(dir, sheet, id, &MediaType::Image, 5, url);
        assert_eq!(std::path::PathBuf::from(got), expected);
    }
}

#[test]
fn join_path_cases() {
    assert_eq!(join_path("a".to_string(), "b"), "a/b");
    assert_eq!(join_path("a/".to_string(), "b"), "a/b");
    assert_eq!(join_path("".to_string(), "b"), "b");
    assert_eq!(join_path("a".to_string(), "/b"), "/b");
    assert_eq!(join_path("a".to_string(), ""), "a/");
}
