use vstd::prelude::*;
use crate::fractal::builder::{TileParams, TileRequest};
use crate::fractal::tile::content::TileContent;
use crate::tilemap::map::{requests_for, walk_map, Task, TileStorage};
use crate::tilemap::pos::TilePos;

verus! {

/// The tiles that workers build, shared with them, and the parameters that
/// the tiles are built with.
pub struct TaskMapWithParams {
    /// the workers are to stop
    pub quit: bool,
    pub map: TileStorage<TileContent>,
    pub params: TileParams,
    /// changes with each change of `params`, so that late results are recognised
    pub params_version: usize,
}

/// A tile that a worker built.
pub struct TileResponse {
    pub pos: TilePos,
    pub version: usize,
    pub content: TileContent,
}

impl TaskMapWithParams {
    /// No tiles, the parameters `params` at version zero.
    pub fn new(params: TileParams) -> (m: TaskMapWithParams)
        ensures
            !m.quit,
            m.map.wf(),
            m.map@ == Map::<TileRequest, Task<TileContent>>::empty(),
            m.params == params,
            m.params_version == 0,
    {
        TaskMapWithParams { quit: false, map: TileStorage::new(), params, params_version: 0 }
    }

    /// Build tiles with `p` from now on: the version moves on (wrapping
    /// around) and all tiles are dropped.
    pub fn set_params(&mut self, p: TileParams)
        ensures
            final(self).params == p,
            final(self).params_version == old(self).params_version.wrapping_add(1),
            final(self).quit == old(self).quit,
            final(self).map.wf(),
            final(self).map@ == Map::<TileRequest, Task<TileContent>>::empty(),
    {
        self.params = p;
        self.params_version = self.params_version.wrapping_add(1);
        self.map = TileStorage::new();
    }

    /// Make the wanted tiles those at `positions` with the current
    /// parameters, as `TileStorage::update_with` does, and give the version of
    /// the parameters.
    pub fn update(&mut self, positions: &[TilePos]) -> (version: usize)
        requires
            old(self).map.wf(),
        ensures
            version == old(self).params_version,
            final(self).params == old(self).params,
            final(self).params_version == old(self).params_version,
            final(self).quit == old(self).quit,
            final(self).map.wf(),
            final(self).map@ == walk_map(old(self).map.entries(), requests_for(positions@, old(self).params), Map::empty()),
            forall|k: TileRequest| #[trigger] final(self).map@.contains_key(k) == requests_for(
                positions@,
                old(self).params,
            ).contains(k),
            forall|k: TileRequest| #[trigger] final(self).map@.contains_key(k) ==> (
            final(self).map@[k] is Todo || (old(self).map@.contains_key(k) && final(self).map@[k]
                == old(self).map@[k])),
    {
        let mut requests: Vec<TileRequest> = Vec::new();
        let n = positions.len();
        let mut i: usize = 0;
        while i < n
            invariant
                i <= n,
                n == positions@.len(),
                requests@ == requests_for(positions@, self.params).take(i as int),
            decreases n - i,
        {
            requests.push(TileRequest { pos: positions[i], params: self.params });
            i = i + 1;
            proof {
                assert(requests@ =~= requests_for(positions@, self.params).take(i as int));
            }
        }
        proof {
            assert(requests@ =~= requests_for(positions@, self.params));
        }
        let _dropped = self.map.update_with(requests);
        self.params_version
    }

    /// The next tile for a worker to build, now marked as being built, with
    /// the version of the parameters; `Ok(None)` when every tile is built or
    /// being built, and `Err(())` when the workers are to stop.
    pub fn next_task(&mut self) -> (r: Result<Option<(TileRequest, usize)>, ()>)
        requires
            old(self).map.wf(),
        ensures
            final(self).map.wf(),
            final(self).quit == old(self).quit,
            final(self).params == old(self).params,
            final(self).params_version == old(self).params_version,
            r is Err <==> old(self).quit,
            old(self).quit ==> final(self).map.entries() == old(self).map.entries(),
            r matches Ok(None) ==> final(self).map.entries() == old(self).map.entries() && forall|j: int|
                0 <= j < old(self).map.entries().len() ==> !(
                #[trigger] old(self).map.entries()[j].1 is Todo),
            r matches Ok(Some((k, v))) ==> v == old(self).params_version && exists|i: int|
                #![trigger old(self).map.entries()[i]]
                {
                    &&& 0 <= i < old(self).map.entries().len()
                    &&& old(self).map.entries()[i].0 == k
                    &&& old(self).map.entries()[i].1 is Todo
                    &&& forall|j: int|
                        0 <= j < i ==> !(#[trigger] old(self).map.entries()[j].1 is Todo)
                    &&& final(self).map.entries() == old(self).map.entries().update(
                        i,
                        (k, Task::Doing),
                    )
                },
    {
        if self.quit {
            return Err(());
        }
        match self.map.start_next_todo() {
            Some(k) => Ok(Some((k, self.params_version))),
            None => Ok(None),
        }
    }
}

} // verus!
