use hephae::atlas::file::{split_nine_slice, AssetUsages, AtlasFile};

#[test]
fn nine_slice_suffix() {
    assert_eq!(split_nine_slice("button.9"), (String::from("button"), true));
    assert_eq!(split_nine_slice("a.b.9"), (String::from("a.b"), true));
    assert_eq!(split_nine_slice("icon"), (String::from("icon"), false));
    assert_eq!(split_nine_slice("x.90"), (String::from("x.90"), false));
    assert_eq!(split_nine_slice(".9"), (String::new(), true));
}

#[test]
fn atlas_file_defaults() {
    assert_eq!(AtlasFile::default_padding(), 4);
    assert_eq!(AtlasFile::default_bleeding(), 4);
    assert_eq!(AtlasFile::default_usages(), AssetUsages { main: false, render: true });
}
