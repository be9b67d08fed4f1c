use bevy_lite::asset_path::{get_base_path, macos_bundle_resources, FileAssetReader, FileAssetWriter};

#[test]
fn macos_bundle_resources_directory() {
    assert_eq!(
        macos_bundle_resources("/Applications/My Game.app/Contents/MacOS/my_game"),
        Some(String::from("/Applications/My Game.app/Contents/Resources"))
    );
    // Executables that are not the main executable of a bundle.
    for executable in [
        "/usr/local/bin/my_game",
        "target/release/my_game",
        "my_game",
        "/Applications/My Game.app/Contents/Helpers/my_game",
        "/Applications/My Game/Contents/MacOS/my_game",
        "/Contents/MacOS/my_game",
    ] {
        assert_eq!(macos_bundle_resources(executable), None);
    }
}

#[test]
fn base_path_priority() {
    let exe = "/Applications/My Game.app/Contents/MacOS/my_game";
    assert_eq!(
        get_base_path(Some("/assets".into()), Some("/manifest".into()), exe, true),
        Some("/assets".to_string())
    );
    assert_eq!(
        get_base_path(None, Some("/manifest".into()), exe, true),
        Some("/manifest".to_string())
    );
    assert_eq!(
        get_base_path(None, None, exe, true),
        Some("/Applications/My Game.app/Contents/Resources".to_string())
    );
    assert_eq!(
        get_base_path(None, None, exe, false),
        Some("/Applications/My Game.app/Contents/MacOS".to_string())
    );
    assert_eq!(get_base_path(None, None, "/", false), None);
    assert_eq!(
        FileAssetReader::get_base_path(None, None, "/usr/bin/game", true),
        Some("/usr/bin".to_string())
    );
}

#[test]
fn root_paths_are_joined() {
    let reader = FileAssetReader::new("/game", "assets");
    assert_eq!(reader.root_path(), "/game/assets");
    let reader = FileAssetReader::new("/game/", "assets");
    assert_eq!(reader.root_path(), "/game/assets");
    let reader = FileAssetReader::new("/game", "/elsewhere");
    assert_eq!(reader.root_path(), "/elsewhere");
    let writer = FileAssetWriter::new("/game", "saves");
    assert_eq!(writer.root_path(), "/game/saves");
}
