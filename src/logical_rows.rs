//! A list of logical row indices over a batch of physical rows: either the
//! identity over the first `size` rows, or an explicit list.
use vstd::prelude::*;

verus! {

/// The largest number of rows in a batch.
pub const BATCH_MAX_SIZE: usize = 1024;

/// Logical row indices: the identity over `size` rows, or a slice of
/// indices.
#[derive(Clone, Copy, Debug)]
pub enum LogicalEvents<'a> {
    Identical { size: usize },
    Ref { logical_rows: &'a [usize] },
}

impl<'a> LogicalEvents<'a> {
    /// The indices as a sequence.
    pub open spec fn spec_rows(&self) -> Seq<usize> {
        match self {
            LogicalEvents::Identical { size } => Seq::new(*size as nat, |i: int| i as usize),
            LogicalEvents::Ref { logical_rows } => logical_rows@,
        }
    }

    pub fn new_ident(size: usize) -> (r: Self)
        ensures
            r is Identical,
            r.spec_rows().len() == size,
    {
        LogicalEvents::Identical { size }
    }

    pub fn from_slice(logical_rows: &'a [usize]) -> (r: Self)
        ensures
            r is Ref,
            r.spec_rows() == logical_rows@,
    {
        LogicalEvents::Ref { logical_rows }
    }

    /// The indices as a list; an identity list must be shorter than a batch.
    pub fn as_slice(self) -> (r: Vec<usize>)
        requires
            self is Identical ==> self->size < BATCH_MAX_SIZE,
        ensures
            r@ == self.spec_rows(),
    {
        match self {
            LogicalEvents::Identical { size } => {
                let mut v: Vec<usize> = Vec::new();
                let mut i: usize = 0;
                while i < size
                    invariant
                        i <= size,
                        v@ == Seq::new(i as nat, |j: int| j as usize),
                    decreases size - i,
                {
                    v.push(i);
                    i += 1;
                    assert(v@ =~= Seq::new(i as nat, |j: int| j as usize));
                }
                v
            },
            LogicalEvents::Ref { logical_rows } => {
                let mut v: Vec<usize> = Vec::new();
                let mut i: usize = 0;
                while i < logical_rows.len()
                    invariant
                        i <= logical_rows@.len(),
                        v@ == logical_rows@.subrange(0, i as int),
                    decreases logical_rows@.len() - i,
                {
                    v.push(logical_rows[i]);
                    i += 1;
                    assert(v@ =~= logical_rows@.subrange(0, i as int));
                }
                assert(logical_rows@.subrange(0, i as int) =~= logical_rows@);
                v
            },
        }
    }

    /// The physical index of logical row `idx`.
    pub fn get_idx(&self, idx: usize) -> (r: usize)
        requires
            idx < self.spec_rows().len(),
        ensures
            r == self.spec_rows()[idx as int],
    {
        match self {
            LogicalEvents::Identical { .. } => idx,
            LogicalEvents::Ref { logical_rows } => logical_rows[idx],
        }
    }

    pub fn is_ident(&self) -> (r: bool)
        ensures
            r == (self is Identical),
    {
        match self {
            LogicalEvents::Identical { .. } => true,
            LogicalEvents::Ref { .. } => false,
        }
    }

    pub fn len(&self) -> (r: usize)
        ensures
            r == self.spec_rows().len(),
    {
        match self {
            LogicalEvents::Identical { size } => *size,
            LogicalEvents::Ref { logical_rows } => logical_rows.len(),
        }
    }

    pub fn is_empty(&self) -> (r: bool)
        ensures
            r == (self.spec_rows().len() == 0),
    {
        self.len() == 0
    }

    /// A cursor over the physical indices, in order.
    pub fn into_iter(self) -> (r: LogicalEventsIterator<'a>)
        ensures
            r.logical_rows == self,
            r.idx == 0,
    {
        LogicalEventsIterator { logical_rows: self, idx: 0 }
    }
}

/// A cursor over the physical indices of a [`LogicalEvents`].
pub struct LogicalEventsIterator<'a> {
    pub logical_rows: LogicalEvents<'a>,
    pub idx: usize,
}

impl<'a> LogicalEventsIterator<'a> {
    /// The next physical index, if any.
    pub fn next(&mut self) -> (r: Option<usize>)
        requires
            old(self).idx < usize::MAX,
        ensures
            final(self).logical_rows == old(self).logical_rows,
            final(self).idx == old(self).idx + 1,
            r == (if old(self).idx < old(self).logical_rows.spec_rows().len() {
                Some(old(self).logical_rows.spec_rows()[old(self).idx as int])
            } else {
                None
            }),
    {
        let result = if self.idx < self.logical_rows.len() {
            Some(self.logical_rows.get_idx(self.idx))
        } else {
            None
        };
        self.idx += 1;
        result
    }
}

} // verus!
