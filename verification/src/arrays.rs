//! Arrays of the `ndarray` crate, as this crate uses them.
//!
//! The generic array type of `ndarray` cannot be declared to Verus, so each
//! kind of array is held in a type of its own, and what it holds has a name.

use crate::measure::Measure;
use vstd::prelude::*;

verus! {

/// Why `ndarray` refuses a shape: an `ndarray::ShapeError`, of which nothing
/// more is known.
#[verifier::external_type_specification]
#[verifier::external_body]
pub struct ExShapeError(ndarray::ShapeError);

/// The activity of the speaker channels: an `ndarray::Array2` of bit patterns,
/// with a row for each frame and a column for each channel.
#[verifier::external_body]
pub struct Activity {
    cells: ndarray::Array2<u32>,
}

/// The columns of an activity array, each from the first row down.
pub uninterp spec fn activity_columns(a: Activity) -> Seq<Seq<u32>>;

impl View for Activity {
    type V = Seq<Seq<Measure>>;

    /// The activity of each channel, frame by frame.
    open spec fn view(&self) -> Seq<Seq<Measure>> {
        Seq::new(
            activity_columns(*self).len(),
            |s: int|
                Seq::new(
                    activity_columns(*self)[s].len(),
                    |f: int| Measure { bits: activity_columns(*self)[s][f] },
                ),
        )
    }
}

impl Activity {
    /// `ndarray::Array2::from_shape_vec` with a shape of `rows` by `columns`:
    /// the array whose rows, one after the other, are `cells`. It is refused
    /// exactly where the shape does not have as many cells as there are, or
    /// has an axis that is too long for an array.
    #[verifier::external_body]
    fn from_shape(rows: usize, columns: usize, cells: Vec<u32>) -> (r: Result<
        Activity,
        ndarray::ShapeError,
    >)
        ensures
            r is Ok <==> (rows * columns == cells@.len() && rows <= isize::MAX && columns
                <= isize::MAX),
            r is Ok ==> activity_columns(r->Ok_0) == Seq::new(
                columns as nat,
                |s: int| Seq::new(rows as nat, |f: int| cells@[f * columns + s]),
            ),
    {
        match ndarray::Array2::from_shape_vec((rows, columns), cells) {
            Ok(cells) => Ok(Activity { cells }),
            Err(e) => Err(e),
        }
    }

    /// `ndarray::ArrayBase::nrows`: the number of rows, which is the length of
    /// every column.
    #[verifier::external_body]
    pub(crate) fn frames(&self) -> (r: usize)
        ensures
            forall|s: int|
                0 <= s < activity_columns(*self).len() ==> (#[trigger] activity_columns(
                    *self,
                )[s]).len() == r,
    {
        self.cells.nrows()
    }

    /// `ndarray::ArrayBase::ncols`: the number of columns.
    #[verifier::external_body]
    pub(crate) fn channels(&self) -> (r: usize)
        ensures
            r == activity_columns(*self).len(),
    {
        self.cells.ncols()
    }

    /// Indexing of an `ndarray::ArrayBase` with a row and a column, which must
    /// be within the array.
    #[verifier::external_body]
    fn cell(&self, row: usize, column: usize) -> (r: u32)
        requires
            column < activity_columns(*self).len(),
            row < activity_columns(*self)[column as int].len(),
        ensures
            r == activity_columns(*self)[column as int][row as int],
    {
        self.cells[(row, column)]
    }

    /// The activity of `channels` channels over `frames` frames: all channels
    /// of the first frame, then those of the second, and so on. There is none
    /// where the number of levels is another.
    pub fn new(frames: usize, channels: usize, levels: &Vec<Measure>) -> (r: Option<Activity>)
        ensures
            r is Some <==> frames * channels == levels@.len() && frames <= isize::MAX && channels
                <= isize::MAX,
            r matches Some(a) ==> a@ == Seq::new(
                channels as nat,
                |s: int| Seq::new(frames as nat, |f: int| levels@[f * channels + s]),
            ),
    {
        let mut cells: Vec<u32> = Vec::new();
        for i in 0..levels.len()
            invariant
                cells@.len() == i,
                forall|k: int| 0 <= k < i ==> #[trigger] cells@[k] == levels@[k].bits,
        {
            cells.push(levels[i].bits);
        }
        let ghost all = cells@;
        let r: Option<Activity> = match Activity::from_shape(frames, channels, cells) {
            Ok(activity) => Some(activity),
            Err(_) => None,
        };
        proof {
            if r is Some {
                let a = r->0;
                let expected = Seq::new(
                    channels as nat,
                    |s: int| Seq::new(frames as nat, |f: int| levels@[f * channels + s]),
                );
                assert forall|s: int| 0 <= s < channels implies a@[s] =~= expected[s] by {
                    assert forall|f: int| 0 <= f < frames implies a@[s][f]
                        == expected[s][f] by {
                        lemma_cell_in_range(f, s, frames as int, channels as int);
                        assert(all[f * channels + s] == levels@[f * channels + s].bits);
                    }
                }
                assert(a@ =~= expected);
            }
        }
        r
    }

    /// The activity of a channel in a frame.
    pub(crate) fn level(&self, frame: usize, channel: usize) -> (r: Measure)
        requires
            channel < self@.len(),
            frame < self@[channel as int].len(),
        ensures
            r == self@[channel as int][frame as int],
    {
        Measure { bits: self.cell(frame, channel) }
    }
}

proof fn lemma_cell_in_range(f: int, s: int, frames: int, channels: int)
    by (nonlinear_arith)
    requires
        0 <= f < frames,
        0 <= s < channels,
    ensures
        0 <= f * channels + s < frames * channels,
{
}

/// Counts, one for each frame: an `ndarray::Array1`.
#[verifier::external_body]
pub struct Tally {
    counts: ndarray::Array1<usize>,
}

/// The counts of a tally.
pub uninterp spec fn tally_counts(t: Tally) -> Seq<usize>;

impl View for Tally {
    type V = Seq<usize>;

    open spec fn view(&self) -> Seq<usize> {
        tally_counts(*self)
    }
}

impl Tally {
    /// `ndarray::Array1::zeros`: `n` counts of zero, as many as memory can
    /// have room for.
    #[verifier::external_body]
    pub(crate) fn zeros(n: usize) -> (r: Tally)
        requires
            n * 8 <= isize::MAX,
        ensures
            tally_counts(r) == Seq::new(n as nat, |i: int| 0usize),
    {
        Tally { counts: ndarray::Array1::zeros(n) }
    }

    /// `ndarray::ArrayBase::len`: the number of counts.
    #[verifier::external_body]
    pub(crate) fn len(&self) -> (r: usize)
        ensures
            r == tally_counts(*self).len(),
    {
        self.counts.len()
    }

    /// Indexing of an `ndarray::ArrayBase`, within the array.
    #[verifier::external_body]
    pub(crate) fn get(&self, i: usize) -> (r: usize)
        requires
            i < tally_counts(*self).len(),
        ensures
            r == tally_counts(*self)[i as int],
    {
        self.counts[i]
    }

    /// Assignment by an index to an `ndarray::ArrayBase`, within the array.
    #[verifier::external_body]
    pub(crate) fn set(&mut self, i: usize, count: usize)
        requires
            i < tally_counts(*old(self)).len(),
        ensures
            tally_counts(*final(self)) == tally_counts(*old(self)).update(i as int, count),
    {
        self.counts[i] = count;
    }
}

} // verus!
