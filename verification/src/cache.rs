use vstd::prelude::*;

verus! {

/// The mapping from remote name to the groups synchronized from it.
pub type RemoteToSgroupIds = Vec<(String, Vec<String>)>;

/// An expirable cached value: the mapping together with the moment it was
/// computed, as seconds of the system clock.
pub struct SharedExpirableCache {
    pub entry: Option<(u64, RemoteToSgroupIds)>,
}

/// The caches of the whole service: today only the remote-to-groups
/// mapping. The surrounding process guards the value with its own lock and
/// supplies the clock readings.
pub struct AllCaches {
    pub remote_to_sgroup_ids: SharedExpirableCache,
}

impl SharedExpirableCache {
    /// An empty cache.
    pub fn new() -> (r: SharedExpirableCache)
        ensures
            r.entry is None,
    {
        SharedExpirableCache { entry: None }
    }

    /// Drop the cached value.
    pub fn clear(&mut self)
        ensures
            final(self).entry is None,
    {
        self.entry = None;
    }

    /// Store a value computed at the given moment.
    pub fn set(&mut self, now: u64, data: RemoteToSgroupIds)
        ensures
            final(self).entry matches Some((t, d)) && t == now && d@ == data@,
    {
        self.entry = Some((now, data));
    }

    /// The cached value with its moment, if one is stored.
    pub fn get<'a>(&'a self) -> (r: Option<&'a (u64, RemoteToSgroupIds)>)
        ensures
            match r {
                Some(e) => self.entry matches Some(stored) && e.0 == stored.0 && e.1@ == stored.1@,
                None => self.entry is None,
            },
    {
        match &self.entry {
            Some(e) => Some(e),
            None => None,
        }
    }
}

impl AllCaches {
    /// All caches empty.
    pub fn new() -> (r: AllCaches)
        ensures
            r.remote_to_sgroup_ids.entry is None,
    {
        AllCaches { remote_to_sgroup_ids: SharedExpirableCache::new() }
    }

    /// Drop every cached value.
    pub fn clear_all(&mut self)
        ensures
            final(self).remote_to_sgroup_ids.entry is None,
    {
        self.remote_to_sgroup_ids.clear();
    }
}

} // verus!
