use lce::asset::BlockAssetLoadState;

#[test]
fn loading_moves_forward_in_order() {
    let s = BlockAssetLoadState::default();
    assert_eq!(s, BlockAssetLoadState::LoadingFolder);
    assert_eq!(s.on_folder_event(false), BlockAssetLoadState::LoadingFolder);
    let s = s.on_folder_event(true);
    assert_eq!(s, BlockAssetLoadState::BuildingAtlas);
    let s = s.on_atlas_built();
    assert_eq!(s, BlockAssetLoadState::Finished);
}

#[test]
fn finished_stays_finished() {
    let s = BlockAssetLoadState::Finished;
    assert_eq!(s.on_folder_event(true), BlockAssetLoadState::Finished);
    assert_eq!(s.on_atlas_built(), BlockAssetLoadState::Finished);
    assert_eq!(BlockAssetLoadState::LoadingFolder.on_atlas_built(), BlockAssetLoadState::LoadingFolder);
}
