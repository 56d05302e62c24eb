//! Process-wide counters surfaced on the statistics endpoint.
use vstd::prelude::*;

verus! {

/// Saturating 64-bit addition.
pub open spec fn stat_add(a: u64, b: u64) -> u64 {
    if a + b > u64::MAX {
        u64::MAX
    } else {
        (a + b) as u64
    }
}

/// Saturating 64-bit subtraction.
pub open spec fn stat_sub(a: u64, b: u64) -> u64 {
    if a - b < 0 {
        0
    } else {
        (a - b) as u64
    }
}

/// Process-wide tracker figures; reset only when the process restarts.
pub struct GlobalStats {
    pub seeders_total: u64,
    pub leechers_total: u64,
    pub announces_ok: u64,
    pub announces_fail: u64,
    pub scrapes: u64,
    pub promotions: u64,
}

impl GlobalStats {
    /// All counters at zero.
    pub fn new() -> (r: GlobalStats)
        ensures
            r.seeders_total == 0 && r.leechers_total == 0 && r.announces_ok == 0
                && r.announces_fail == 0 && r.scrapes == 0 && r.promotions == 0,
    {
        GlobalStats {
            seeders_total: 0,
            leechers_total: 0,
            announces_ok: 0,
            announces_fail: 0,
            scrapes: 0,
            promotions: 0,
        }
    }

    /// A leecher joined some swarm.
    pub fn add_leech(&mut self)
        ensures
            *final(self) == (GlobalStats {
                leechers_total: stat_add(old(self).leechers_total, 1),
                ..*old(self)
            }),
    {
        self.leechers_total = self.leechers_total.saturating_add(1);
    }

    /// A leecher left some swarm.
    pub fn sub_leech(&mut self)
        ensures
            *final(self) == (GlobalStats {
                leechers_total: stat_sub(old(self).leechers_total, 1),
                ..*old(self)
            }),
    {
        self.leechers_total = self.leechers_total.saturating_sub(1);
    }

    /// A seeder left some swarm.
    pub fn sub_seed(&mut self)
        ensures
            *final(self) == (GlobalStats {
                seeders_total: stat_sub(old(self).seeders_total, 1),
                ..*old(self)
            }),
    {
        self.seeders_total = self.seeders_total.saturating_sub(1);
    }

    /// A leecher completed and became a seeder.
    pub fn promote_leech(&mut self)
        ensures
            *final(self) == (GlobalStats {
                seeders_total: stat_add(old(self).seeders_total, 1),
                leechers_total: stat_sub(old(self).leechers_total, 1),
                promotions: stat_add(old(self).promotions, 1),
                ..*old(self)
            }),
    {
        self.seeders_total = self.seeders_total.saturating_add(1);
        self.leechers_total = self.leechers_total.saturating_sub(1);
        self.promotions = self.promotions.saturating_add(1);
    }

    /// Several seeders were evicted by the reaper.
    pub fn sub_seeds(&mut self, n: u64)
        ensures
            *final(self) == (GlobalStats {
                seeders_total: stat_sub(old(self).seeders_total, n),
                ..*old(self)
            }),
    {
        self.seeders_total = self.seeders_total.saturating_sub(n);
    }

    /// Several leechers were evicted by the reaper.
    pub fn sub_leeches(&mut self, n: u64)
        ensures
            *final(self) == (GlobalStats {
                leechers_total: stat_sub(old(self).leechers_total, n),
                ..*old(self)
            }),
    {
        self.leechers_total = self.leechers_total.saturating_sub(n);
    }

    /// An announce was served.
    pub fn succ_announce(&mut self)
        ensures
            *final(self) == (GlobalStats {
                announces_ok: stat_add(old(self).announces_ok, 1),
                ..*old(self)
            }),
    {
        self.announces_ok = self.announces_ok.saturating_add(1);
    }

    /// An announce was rejected.
    pub fn fail_announce(&mut self)
        ensures
            *final(self) == (GlobalStats {
                announces_fail: stat_add(old(self).announces_fail, 1),
                ..*old(self)
            }),
    {
        self.announces_fail = self.announces_fail.saturating_add(1);
    }

    /// A scrape was served.
    pub fn incr_scrapes(&mut self)
        ensures
            *final(self) == (GlobalStats {
                scrapes: stat_add(old(self).scrapes, 1),
                ..*old(self)
            }),
    {
        self.scrapes = self.scrapes.saturating_add(1);
    }
}

} // verus!
