use vstd::prelude::*;

verus! {

/// Running counts of received frames: totals by frame format, and counts by
/// raw identifier kept in increasing identifier order.
pub struct FrameStats {
    pub rx_frames: u64,
    pub eff_frames_total: u64,
    pub eff_frames_err: u64,
    pub eff_frames_rtr: u64,
    pub sff_frames_total: u64,
    pub sff_frames_err: u64,
    pub sff_frames_rtr: u64,
    pub msg_ids: Vec<(u32, u64)>,
}

/// Adds one to a counter that stops at its maximum.
pub open spec fn bump(n: u64) -> u64 {
    if n < u64::MAX {
        (n + 1) as u64
    } else {
        n
    }
}

/// Identifiers strictly increase along the sequence.
pub open spec fn ids_increasing(s: Seq<(u32, u64)>) -> bool {
    forall|i: int, j: int| 0 <= i < j < s.len() ==> (#[trigger] s[i]).0 < (#[trigger] s[j]).0
}

fn saturating_bump(n: u64) -> (r: u64)
    ensures
        r == bump(n),
{
    if n < u64::MAX {
        n + 1
    } else {
        n
    }
}

impl FrameStats {
    /// The counts by identifier.
    pub open spec fn id_counts(&self) -> Seq<(u32, u64)> {
        self.msg_ids@
    }

    pub open spec fn well_formed(&self) -> bool {
        ids_increasing(self.id_counts())
    }

    pub fn new() -> (r: FrameStats)
        ensures
            r.well_formed(),
            r.id_counts().len() == 0,
            r.rx_frames == 0,
            r.eff_frames_total == 0 && r.eff_frames_err == 0 && r.eff_frames_rtr == 0,
            r.sff_frames_total == 0 && r.sff_frames_err == 0 && r.sff_frames_rtr == 0,
    {
        FrameStats {
            rx_frames: 0,
            eff_frames_total: 0,
            eff_frames_err: 0,
            eff_frames_rtr: 0,
            sff_frames_total: 0,
            sff_frames_err: 0,
            sff_frames_rtr: 0,
            msg_ids: Vec::new(),
        }
    }

    /// Counts one received frame.
    pub fn record(&mut self, extended: bool, error: bool, remote: bool, raw_id: u32)
        requires
            old(self).well_formed(),
        ensures
            final(self).well_formed(),
            final(self).rx_frames == bump(old(self).rx_frames),
            final(self).eff_frames_total == if extended {
                bump(old(self).eff_frames_total)
            } else {
                old(self).eff_frames_total
            },
            final(self).eff_frames_err == if extended && error {
                bump(old(self).eff_frames_err)
            } else {
                old(self).eff_frames_err
            },
            final(self).eff_frames_rtr == if extended && remote {
                bump(old(self).eff_frames_rtr)
            } else {
                old(self).eff_frames_rtr
            },
            final(self).sff_frames_total == if !extended {
                bump(old(self).sff_frames_total)
            } else {
                old(self).sff_frames_total
            },
            final(self).sff_frames_err == if !extended && error {
                bump(old(self).sff_frames_err)
            } else {
                old(self).sff_frames_err
            },
            final(self).sff_frames_rtr == if !extended && remote {
                bump(old(self).sff_frames_rtr)
            } else {
                old(self).sff_frames_rtr
            },
            forall|i: int|
                0 <= i < old(self).id_counts().len() && (#[trigger] old(self).id_counts()[i]).0
                    == raw_id ==> final(self).id_counts() == old(self).id_counts().update(
                    i,
                    (raw_id, bump(old(self).id_counts()[i].1)),
                ),
            (forall|i: int|
                0 <= i < old(self).id_counts().len() ==> (#[trigger] old(self).id_counts()[i]).0
                    != raw_id) ==> exists|p: int|
                0 <= p <= old(self).id_counts().len() && final(self).id_counts()
                    == old(self).id_counts().insert(p, (raw_id, 1u64)),
    {
        self.rx_frames = saturating_bump(self.rx_frames);
        if extended {
            self.eff_frames_total = saturating_bump(self.eff_frames_total);
            if error {
                self.eff_frames_err = saturating_bump(self.eff_frames_err);
            }
            if remote {
                self.eff_frames_rtr = saturating_bump(self.eff_frames_rtr);
            }
        } else {
            self.sff_frames_total = saturating_bump(self.sff_frames_total);
            if error {
                self.sff_frames_err = saturating_bump(self.sff_frames_err);
            }
            if remote {
                self.sff_frames_rtr = saturating_bump(self.sff_frames_rtr);
            }
        }
        let ghost ids = self.msg_ids@;
        let mut p: usize = 0;
        while p < self.msg_ids.len() && self.msg_ids[p].0 < raw_id
            invariant
                p <= ids.len(),
                self.msg_ids@ == ids,
                forall|k: int| 0 <= k < p ==> (#[trigger] ids[k]).0 < raw_id,
            decreases ids.len() - p,
        {
            p += 1;
        }
        if p < self.msg_ids.len() && self.msg_ids[p].0 == raw_id {
            let count = saturating_bump(self.msg_ids[p].1);
            self.msg_ids.set(p, (raw_id, count));
            proof {
                assert forall|i: int|
                    0 <= i < ids.len() && (#[trigger] ids[i]).0 == raw_id implies i == p by {
                    if i < p {
                    } else if i > p {
                        assert(ids[p as int].0 < ids[i].0);
                    }
                }
            }
        } else {
            self.msg_ids.insert(p, (raw_id, 1));
            proof {
                let s = self.msg_ids@;
                assert forall|i: int, j: int| 0 <= i < j < s.len() implies (#[trigger] s[i]).0 < (
                #[trigger] s[j]).0 by {
                    if i < p && j == p {
                    } else if i < p && j > p {
                        assert(s[j] == ids[j - 1]);
                        assert(ids[i].0 < ids[j - 1].0 || i == j - 1);
                    } else if i == p {
                        assert(s[j] == ids[j - 1]);
                        assert(ids[p as int].0 >= raw_id);
                        assert(ids[p as int].0 != raw_id);
                        assert(p == j - 1 || ids[p as int].0 < ids[j - 1].0);
                    } else if i > p {
                        assert(s[i] == ids[i - 1] && s[j] == ids[j - 1]);
                    } else {
                        assert(s[i] == ids[i] && s[j] == ids[j]);
                    }
                }
                assert(p < ids.len() ==> ids[p as int].0 != raw_id);
            }
        }
    }

    /// The counts by identifier, in increasing identifier order.
    pub fn counts_by_id(&self) -> (r: Vec<(u32, u64)>)
        ensures
            r@ == self.id_counts(),
    {
        let mut out: Vec<(u32, u64)> = Vec::new();
        let mut i: usize = 0;
        while i < self.msg_ids.len()
            invariant
                i <= self.msg_ids@.len(),
                out@ == self.msg_ids@.subrange(0, i as int),
            decreases self.msg_ids@.len() - i,
        {
            out.push(self.msg_ids[i]);
            i += 1;
        }
        assert(self.msg_ids@.subrange(0, i as int) =~= self.msg_ids@);
        out
    }
}

} // verus!
