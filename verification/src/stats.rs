//! Per-object statistics, bucketed by day.

use vstd::prelude::*;

verus! {

/// A bucket vector: data points per day, keyed by the day's offset
/// from the vector's creation day.
#[derive(Debug)]
pub struct DataBucketVec<T> {
    pub offset: u32,
    pub data: Vec<(u32, T)>,
}

impl<T> DataBucketVec<T> {
    /// An empty bucket vector anchored at `offset` (a day number).
    pub fn new(offset: u32) -> (r: Self)
        ensures
            r.offset == offset,
            r.data@ == Seq::<(u32, T)>::empty(),
    {
        DataBucketVec { offset, data: Vec::new() }
    }
}

/// Container for all statistics per object.
#[derive(Debug)]
pub struct Statistics {
    pub views: DataBucketVec<usize>,
}

impl Statistics {
    /// Fresh statistics anchored at `today` (a day number).
    pub fn new(today: u32) -> (r: Self)
        ensures
            r.views.offset == today,
            r.views.data@ == Seq::<(u32, usize)>::empty(),
    {
        Statistics { views: DataBucketVec::new(today) }
    }

    /// Record one view on the day `today`: the last bucket is
    /// incremented when it already is today's, else a new bucket with
    /// count one is appended.
    pub fn add_view(&mut self, today: u32)
        requires
            today >= old(self).views.offset,
            old(self).views.data@.len() > 0 && old(self).views.data@.last().0 == today - old(
                self,
            ).views.offset ==> old(self).views.data@.last().1 < usize::MAX,
        ensures
            final(self).views.offset == old(self).views.offset,
            ({
                let d = (today - old(self).views.offset) as u32;
                let data = old(self).views.data@;
                if data.len() > 0 && data.last().0 == d {
                    final(self).views.data@ == data.update(
                        data.len() - 1,
                        (d, (data.last().1 + 1) as usize),
                    )
                } else {
                    final(self).views.data@ == data.push((d, 1usize))
                }
            }),
    {
        let day_offset = today - self.views.offset;
        let n = self.views.data.len();
        if n > 0 {
            let (last_day, count) = self.views.data[n - 1];
            if last_day == day_offset {
                self.views.data.set(n - 1, (day_offset, count + 1));
                return ;
            }
        }
        self.views.data.push((day_offset, 1));
    }
}

} // verus!
