//! Terrain events: the ordered wall add/remove operations that describe
//! a newly generated maze.

use vstd::prelude::*;

verus! {

/// One terrain operation: add or remove a build of `build_type` at the
/// tile carrying `tile_id`.
#[derive(Clone, Copy, PartialEq, Eq, Structural, Debug)]
pub struct TerrainNode {
    pub tile_id: usize,
    pub build_type: BuildType,
    pub action: TerrainAction,
}

#[derive(Clone, Copy, PartialEq, Eq, Structural, Debug)]
pub enum TerrainAction {
    Added,
    Removed,
}

#[derive(Clone, Copy, PartialEq, Eq, Structural, Debug)]
pub enum BuildType {
    Wall,
    End,
}

/// Somewhere in `events` the wall at the tile carrying `id` is removed.
pub open spec fn has_wall_removal(events: Seq<TerrainNode>, id: int) -> bool {
    exists|j: int|
        0 <= j < events.len() && (#[trigger] events[j]).tile_id == id && events[j].action
            == TerrainAction::Removed && events[j].build_type == BuildType::Wall
}

/// A recorded wall removal stays recorded when the stream is extended.
pub proof fn lemma_removal_extend(s: Seq<TerrainNode>, t: Seq<TerrainNode>, id: int)
    requires
        s.len() <= t.len(),
        forall|k: int| 0 <= k < s.len() ==> t[k] == s[k],
        has_wall_removal(s, id),
    ensures
        has_wall_removal(t, id),
{
    let j = choose|j: int|
        0 <= j < s.len() && (#[trigger] s[j]).tile_id == id && s[j].action == TerrainAction::Removed
            && s[j].build_type == BuildType::Wall;
    assert(t[j] == s[j]);
}

} // verus!
