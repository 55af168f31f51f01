//! The loading states of the block assets.

use vstd::prelude::*;

verus! {

/// Loading states for the block assets.
#[derive(Clone, Copy, Debug, PartialEq, Eq, Hash, Structural)]
pub enum BlockAssetLoadState {
    /// The folder is being parsed for textures.
    LoadingFolder,
    /// The atlas is being built from the textures in the folder.
    BuildingAtlas,
    /// The atlas is built, and the block assets are ready to be used.
    Finished,
}

/// How far loading has got: folder, atlas, finished.
pub open spec fn stage(s: BlockAssetLoadState) -> nat {
    match s {
        BlockAssetLoadState::LoadingFolder => 0,
        BlockAssetLoadState::BuildingAtlas => 1,
        BlockAssetLoadState::Finished => 2,
    }
}

/// The state after an event about the texture folder.
pub open spec fn after_folder_event(s: BlockAssetLoadState, folder_loaded: bool) -> BlockAssetLoadState {
    if s == BlockAssetLoadState::LoadingFolder && folder_loaded {
        BlockAssetLoadState::BuildingAtlas
    } else {
        s
    }
}

/// The state once the atlas has been built.
pub open spec fn after_atlas_built(s: BlockAssetLoadState) -> BlockAssetLoadState {
    if s == BlockAssetLoadState::BuildingAtlas {
        BlockAssetLoadState::Finished
    } else {
        s
    }
}

/// Loading only moves forward, one stage at a time, and once finished it
/// stays finished.
pub proof fn lemma_loading_moves_forward(s: BlockAssetLoadState, folder_loaded: bool)
    ensures
        stage(s) <= stage(after_folder_event(s, folder_loaded)) <= stage(s) + 1,
        stage(s) <= stage(after_atlas_built(s)) <= stage(s) + 1,
        s == BlockAssetLoadState::Finished ==> after_folder_event(s, folder_loaded) == s
            && after_atlas_built(s) == s,
{
}

/// Folder events only ever move loading from the folder to the atlas: while
/// the atlas is being built a folder event changes nothing, and no folder
/// event finishes loading. Loading finishes only when the atlas is built,
/// and only from building it (or when it had already finished).
pub proof fn lemma_only_the_atlas_finishes_loading(s: BlockAssetLoadState, folder_loaded: bool)
    ensures
        after_folder_event(BlockAssetLoadState::BuildingAtlas, folder_loaded)
            == BlockAssetLoadState::BuildingAtlas,
        after_folder_event(s, folder_loaded) == BlockAssetLoadState::Finished ==> s
            == BlockAssetLoadState::Finished,
        after_folder_event(s, folder_loaded) == BlockAssetLoadState::BuildingAtlas ==> s
            != BlockAssetLoadState::Finished,
        after_atlas_built(s) == BlockAssetLoadState::Finished ==> s
            != BlockAssetLoadState::LoadingFolder,
        after_atlas_built(BlockAssetLoadState::LoadingFolder) == BlockAssetLoadState::LoadingFolder,
{
}

impl BlockAssetLoadState {
    /// The state after an event about the texture folder: while the folder
    /// is loading, news that it has loaded with all its dependencies moves
    /// on to building the atlas; anything else changes nothing.
    pub fn on_folder_event(self, folder_loaded: bool) -> (r: Self)
        ensures
            r == after_folder_event(self, folder_loaded),
            self == BlockAssetLoadState::LoadingFolder ==> r == (if folder_loaded {
                BlockAssetLoadState::BuildingAtlas
            } else {
                BlockAssetLoadState::LoadingFolder
            }),
            self == BlockAssetLoadState::BuildingAtlas ==> r == BlockAssetLoadState::BuildingAtlas,
            self == BlockAssetLoadState::Finished ==> r == BlockAssetLoadState::Finished,
    {
        match self {
            BlockAssetLoadState::LoadingFolder => {
                if folder_loaded {
                    BlockAssetLoadState::BuildingAtlas
                } else {
                    self
                }
            },
            _ => self,
        }
    }

    /// The state once the atlas has been built: building moves on to
    /// finished; any other state is kept.
    pub fn on_atlas_built(self) -> (r: Self)
        ensures
            r == after_atlas_built(self),
            self == BlockAssetLoadState::LoadingFolder ==> r == BlockAssetLoadState::LoadingFolder,
            self == BlockAssetLoadState::BuildingAtlas ==> r == BlockAssetLoadState::Finished,
            self == BlockAssetLoadState::Finished ==> r == BlockAssetLoadState::Finished,
    {
        match self {
            BlockAssetLoadState::BuildingAtlas => BlockAssetLoadState::Finished,
            _ => self,
        }
    }
}

impl Default for BlockAssetLoadState {
    fn default() -> (r: Self)
        ensures
            r == BlockAssetLoadState::LoadingFolder,
    {
        BlockAssetLoadState::LoadingFolder
    }
}

} // verus!
