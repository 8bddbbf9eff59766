//! A level fetched from a server: where it came from, its information and its chart.
use vstd::prelude::*;
use crate::server::{merge_url_spec, Server};
use crate::sonolus::{LevelData, LevelInfo};

verus! {

/// A level: its server, information and chart.
pub struct Level {
    pub server: Server,
    pub info: LevelInfo,
    pub data: LevelData,
}

impl Level {
    /// Puts a level together.
    pub fn new(server: Server, info: LevelInfo, data: LevelData) -> (l: Level)
        ensures
            l.server == server,
            l.info == info,
            l.data == data,
    {
        Level { server, info, data }
    }

    /// The URL of the level's music on its server.
    pub fn bgm_url(&self) -> (r: String)
        ensures
            r@ == merge_url_spec(self.server.url@, self.info.bgm.url@),
    {
        self.server.merge_url(self.info.bgm.url.as_str())
    }
}

} // verus!
