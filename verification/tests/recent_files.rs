use graphite_studio::recent_files::{display_path, path_key, supported, RecentFiles};

#[test]
fn most_recent_first_deduplicates_truncates_and_disables() {
    let root = "/tmp/graphite-recent";
    let mut recent = RecentFiles::default();
    for i in 0..12 {
        recent.remember(&format!("{root}/image-{i}.png"), &format!("{root}/image-{i}.png"), false);
    }
    assert_eq!(recent.files().len(), 10);
    assert!(recent.files()[0].ends_with("image-11.png"));
    recent.remember(&format!("{root}/image-5.png"), &format!("{root}/image-5.png"), false);
    assert!(recent.files()[0].ends_with("image-5.png"));
    assert_eq!(recent.files().len(), 10);
    assert!(!recent.remember(&format!("{root}/image-5.png"), &format!("{root}/image-5.png"), false));
    recent.set_maximum(3, false);
    assert_eq!(recent.files().len(), 3);
    recent.set_maximum(0, false);
    assert!(recent.files().is_empty());
    assert!(!recent.remember(&format!("{root}/disabled.png"), &format!("{root}/disabled.png"), false));
    recent.set_maximum(255, false);
    assert_eq!(recent.maximum(), 10);
    assert!(recent.files().is_empty());
    assert!(!recent.remember(&format!("{root}/unsupported.gif"), &format!("{root}/unsupported.gif"), false));
}

#[test]
fn windows_keys_ignore_case_and_verbatim_prefix() {
    let mut recent = RecentFiles::from_parts(
        255,
        vec!["C:\\Art\\Caf\u{c9}.PNG".to_string(), "\\\\?\\c:\\art\\caf\u{e9}.png".to_string(), "relative.png".to_string()],
    );
    recent.normalize(true);
    assert_eq!(recent.maximum(), 10);
    assert_eq!(display_path(r"\\?\UNC\server\share\art.psd", true), r"\\server\share\art.psd");
    assert_eq!(path_key("C:\\Art\\Caf\u{c9}.PNG", true), path_key("\\\\?\\c:\\art\\caf\u{e9}.png", true));
}

#[test]
fn display_keeps_unix_paths_and_strips_windows_prefixes() {
    assert_eq!(display_path(r"\\?\UNC\server\share\art.psd", false), r"\\?\UNC\server\share\art.psd");
    assert_eq!(display_path(r"\\?\C:\art.psd", true), r"C:\art.psd");
    assert_eq!(display_path("/home/a.png", true), "/home/a.png");
    assert_eq!(path_key("C:/Art/X.PNG", true), r"c:\art\x.png");
    assert_eq!(path_key("/Art/X.PNG", false), "/Art/X.PNG");
}

#[test]
fn normalize_drops_relative_unsupported_and_repeated_files() {
    let mut recent = RecentFiles::from_parts(
        4,
        vec!["/a.png".to_string(), "b.png".to_string(), "/c.gif".to_string(), "/a.png".to_string(), "/d.PSD".to_string()],
    );
    recent.normalize(false);
    assert_eq!(recent.files(), &["/a.png".to_string(), "/d.PSD".to_string()]);
    assert_eq!(recent.maximum(), 4);
    recent.normalize(false);
    assert_eq!(recent.files(), &["/a.png".to_string(), "/d.PSD".to_string()]);
}

#[test]
fn supported_files_are_recognised_by_extension() {
    assert!(supported("/x/y.Graphite"));
    assert!(!supported("/x/y"));
    assert!(!supported("/x/y.tiff"));
}

#[test]
fn remembering_a_listed_file_moves_it_first() {
    let mut recent = RecentFiles::from_parts(10, vec!["/a.png".to_string(), "/b.png".to_string(), "/c.png".to_string()]);
    assert!(recent.remember("/c.png", "/c.png", false));
    assert_eq!(recent.files(), &["/c.png".to_string(), "/a.png".to_string(), "/b.png".to_string()]);
    assert!(!recent.remember("/c.png", "/c.png", false));
}

#[test]
fn bare_file_names_are_judged_by_their_extension() {
    assert!(supported("x.psd"));
    assert!(supported("archive.v2.JPEG"));
    assert!(!supported(".png"));
    assert!(!supported("png"));
    assert!(!supported("x."));
    assert!(!supported(".."));
    let mut recent = RecentFiles::from_parts(10, vec![]);
    assert!(recent.remember("x.psd", "x.psd", false));
    assert!(!recent.remember("x.gif", "x.gif", false));
}

#[test]
fn the_given_path_decides_support_and_the_canonical_one_is_listed() {
    let mut recent = RecentFiles::from_parts(10, vec![]);
    assert!(!recent.remember("/home/ann/link", "/data/cat.png", false));
    assert!(recent.remember("/home/ann/link.png", "/data/cat", false));
    assert_eq!(recent.files().len(), 0);
    assert!(!recent.remember("/home/ann/cat.tif", "/data/cat.png", false));
    let mut kept = RecentFiles::from_parts(10, vec!["/data/a.png".to_string()]);
    assert!(kept.remember("/home/ann/b.PSD", "/data/b.psd", false));
    assert_eq!(kept.files()[0], "/data/b.psd");
    assert_eq!(kept.files()[1], "/data/a.png");
    assert!(!kept.remember("/elsewhere/b.psd", "/data/b.psd", false));
}

#[test]
fn relative_files_are_never_kept() {
    let mut recent = RecentFiles::from_parts(10, vec!["a.png".to_string(), "dir/b.png".to_string(), "/c.png".to_string()]);
    recent.normalize(false);
    assert_eq!(recent.files().len(), 1);
    assert_eq!(recent.files()[0], "/c.png");
}
