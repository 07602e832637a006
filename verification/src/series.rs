//! The sample buffers behind a graph: each series keeps its samples newest first,
//! together with the x position of every sample slot and how many samples are shown.
//! A group of series grows to one series per reported value; the new series share the
//! time axis of the series before them.

use vstd::prelude::*;

verus! {

/// Maximum number of data points a single dataset can buffer.
pub const MAX_DATA_POINTS: usize = 600;

/// Default initial number of visible data points in a fresh dataset.
pub const MIN_DATA_POINTS: usize = 10;

/// How many of `n` given samples a series keeps: at most `MAX_DATA_POINTS`.
pub open spec fn kept_len(n: nat) -> int {
    if n < MAX_DATA_POINTS {
        n as int
    } else {
        MAX_DATA_POINTS as int
    }
}

/// One series: samples newest first, the x position of each slot, and how many of the
/// samples are shown.
pub struct Dataset<T> {
    data: Vec<T>,
    x_points: Vec<T>,
    pub used_data: usize,
}

impl<T> Dataset<T> {
    /// The samples, newest first.
    pub closed spec fn samples(&self) -> Seq<T> {
        self.data@
    }

    /// The x position of each sample slot.
    pub closed spec fn axis(&self) -> Seq<T> {
        self.x_points@
    }

    /// How many samples are shown.
    pub closed spec fn used(&self) -> usize {
        self.used_data
    }
}

impl<T: Copy> Dataset<T> {
    /// A series built from `(x, sample)` pairs, none of them shown yet. A series
    /// buffers at most `MAX_DATA_POINTS` samples: pairs beyond that are left out.
    pub fn new_with_data(d: Vec<(T, T)>) -> (s: Self)
        ensures
            s.samples() == d@.take(kept_len(d@.len())).map_values(|p: (T, T)| p.1),
            s.axis() == d@.take(kept_len(d@.len())).map_values(|p: (T, T)| p.0),
            s.used() == 0,
            s.samples().len() <= MAX_DATA_POINTS,
    {
        let mut data: Vec<T> = Vec::new();
        let mut x_points: Vec<T> = Vec::new();
        let mut i: usize = 0;
        while i < d.len() && i < MAX_DATA_POINTS
            invariant
                i <= kept_len(d@.len()),
                data@ == d@.take(i as int).map_values(|p: (T, T)| p.1),
                x_points@ == d@.take(i as int).map_values(|p: (T, T)| p.0),
            decreases d.len() - i,
        {
            let (x, y) = d[i];
            x_points.push(x);
            data.push(y);
            i += 1;
            assert(data@ =~= d@.take(i as int).map_values(|p: (T, T)| p.1));
            assert(x_points@ =~= d@.take(i as int).map_values(|p: (T, T)| p.0));
        }
        Dataset { data, x_points, used_data: 0 }
    }

    /// A series with every slot of `axis` holding `value`, showing `used` samples. The
    /// axis is cut to `MAX_DATA_POINTS` slots.
    pub fn filled(value: T, axis: Vec<T>, used: usize) -> (s: Self)
        ensures
            s.samples() == Seq::new(kept_len(axis@.len()) as nat, |i: int| value),
            s.axis() == axis@.take(kept_len(axis@.len())),
            s.used() == used,
            s.samples().len() <= MAX_DATA_POINTS,
    {
        let mut axis = axis;
        axis.truncate(MAX_DATA_POINTS);
        let mut data: Vec<T> = Vec::new();
        let mut i: usize = 0;
        while i < axis.len()
            invariant
                i <= axis@.len(),
                data@ == Seq::new(i as nat, |k: int| value),
            decreases axis.len() - i,
        {
            data.push(value);
            i += 1;
            assert(data@ =~= Seq::new(i as nat, |k: int| value));
        }
        Dataset { data, x_points: axis, used_data: used }
    }

    /// The samples of this series.
    pub fn data(&self) -> (d: &Vec<T>)
        ensures
            d@ == self.samples(),
    {
        &self.data
    }

    /// The x position of each sample slot.
    pub fn x_points(&self) -> (x: &Vec<T>)
        ensures
            x@ == self.axis(),
    {
        &self.x_points
    }

    /// A copy of this series.
    pub fn copy(&self) -> (c: Self)
        ensures
            c.samples() == self.samples(),
            c.axis() == self.axis(),
            c.used() == self.used(),
    {
        Dataset {
            data: copy_vec(&self.data),
            x_points: copy_vec(&self.x_points),
            used_data: self.used_data,
        }
    }

    /// A series on the time axis of `other`, holding no sample yet: every slot
    /// `blank` except the newest, which is `origin` so that the first frame draws no
    /// vertical drop.
    pub fn empty_like(other: &Self, blank: T, origin: T) -> (s: Self)
        ensures
            s.samples() == blank_samples(other.samples().len(), blank, origin),
            s.axis() == other.axis(),
            s.used() == other.used(),
    {
        let mut data: Vec<T> = Vec::new();
        let mut i: usize = 0;
        while i < other.data.len()
            invariant
                i <= other.data@.len(),
                data@ == blank_samples(i as nat, blank, origin),
            decreases other.data.len() - i,
        {
            if i == 0 {
                data.push(origin);
            } else {
                data.push(blank);
            }
            i += 1;
            assert(data@ =~= blank_samples(i as nat, blank, origin));
        }
        Dataset { data, x_points: copy_vec(&other.x_points), used_data: other.used_data }
    }

    /// Shows `new_points` samples from now on.
    pub fn update_data_points(&mut self, new_points: usize)
        ensures
            final(self).used() == new_points,
            final(self).samples() == old(self).samples(),
            final(self).axis() == old(self).axis(),
    {
        self.used_data = new_points;
    }

    /// The shown samples, newest first.
    pub fn get_data(&self) -> (shown: Vec<T>)
        ensures
            shown@ == self.samples().take(
                if self.used() < self.samples().len() {
                    self.used() as int
                } else {
                    self.samples().len() as int
                },
            ),
    {
        let n = if self.used_data < self.data.len() {
            self.used_data
        } else {
            self.data.len()
        };
        let mut shown: Vec<T> = Vec::new();
        let mut i: usize = 0;
        while i < n
            invariant
                n <= self.data@.len(),
                i <= n,
                shown@ == self.data@.take(i as int),
            decreases n - i,
        {
            shown.push(self.data[i]);
            i += 1;
            assert(shown@ =~= self.data@.take(i as int));
        }
        shown
    }

    /// Records `point` as the newest sample; the oldest sample falls off the end.
    pub fn push_sample(&mut self, point: T)
        requires
            old(self).samples().len() > 0,
        ensures
            final(self).samples() == seq![point] + old(self).samples().drop_last(),
            final(self).axis() == old(self).axis(),
            final(self).used() == old(self).used(),
    {
        let ghost before = self.data@;
        self.data.pop();
        self.data.insert(0, point);
        assert(self.data@ =~= seq![point] + before.drop_last());
    }
}

/// `n` sample slots holding nothing: `origin` first, `blank` in the others.
pub open spec fn blank_samples<T>(n: nat, blank: T, origin: T) -> Seq<T> {
    Seq::new(n, |i: int| if i == 0 { origin } else { blank })
}

fn copy_vec<T: Copy>(v: &Vec<T>) -> (c: Vec<T>)
    ensures
        c@ == v@,
{
    let mut c: Vec<T> = Vec::new();
    let mut i: usize = 0;
    while i < v.len()
        invariant
            i <= v@.len(),
            c@ == v@.take(i as int),
        decreases v.len() - i,
    {
        c.push(v[i]);
        i += 1;
        assert(c@ =~= v@.take(i as int));
    }
    assert(v@.take(v@.len() as int) =~= v@);
    c
}

/// The series whose time axis new series take: the last of `datas`, or `template`
/// when there is none.
pub open spec fn growth_base<T>(datas: Seq<Dataset<T>>, template: Dataset<T>) -> Dataset<T> {
    if datas.len() > 0 {
        datas.last()
    } else {
        template
    }
}

/// Whether `s` is a blank series on the time axis of `base`; see `Dataset::empty_like`.
pub open spec fn is_blank_like<T>(s: Dataset<T>, base: Dataset<T>, blank: T, origin: T) -> bool {
    &&& s.samples() == blank_samples(base.samples().len(), blank, origin)
    &&& s.axis() == base.axis()
    &&& s.used() == base.used()
}

/// Adds series until there are at least `sets`: each new one is blank on the time
/// axis of the last series, or of `template` when there is none. Existing series are
/// left alone.
pub fn grow_to<T: Copy>(
    datas: &mut Vec<Dataset<T>>,
    sets: usize,
    template: &Dataset<T>,
    blank: T,
    origin: T,
)
    ensures
        final(datas)@.len() == if sets > old(datas)@.len() {
            sets as int
        } else {
            old(datas)@.len() as int
        },
        forall|i: int| 0 <= i < old(datas)@.len() ==> #[trigger] final(datas)@[i] == old(datas)@[i],
        forall|i: int|
            old(datas)@.len() <= i < final(datas)@.len() ==> is_blank_like(
                #[trigger] final(datas)@[i],
                growth_base(old(datas)@, *template),
                blank,
                origin,
            ),
{
    let ghost start = datas@;
    let ghost base = if start.len() > 0 {
        start.last()
    } else {
        *template
    };
    while datas.len() < sets
        invariant
            start.len() <= datas@.len(),
            sets >= start.len() ==> datas@.len() <= sets,
            sets < start.len() ==> datas@.len() == start.len(),
            base == (if start.len() > 0 {
                start.last()
            } else {
                *template
            }),
            forall|i: int| 0 <= i < start.len() ==> #[trigger] datas@[i] == start[i],
            forall|i: int| start.len() <= i < datas@.len() ==> is_blank_like(#[trigger] datas@[i], base, blank, origin),
        decreases sets - datas.len(),
    {
        let n = datas.len();
        let next = if n > 0 {
            Dataset::empty_like(&datas[n - 1], blank, origin)
        } else {
            Dataset::empty_like(template, blank, origin)
        };
        proof {
            if n > 0 && n > start.len() {
                let last = datas@[n - 1];
                assert(is_blank_like(last, base, blank, origin));
                assert(blank_samples(last.samples().len(), blank, origin) =~= blank_samples(
                    base.samples().len(),
                    blank,
                    origin,
                ));
            }
        }
        datas.push(next);
    }
}

/// Records one value per series, growing the group first when there are more values
/// than series: series `i` gets `points[i]` as its newest sample; series beyond the
/// values keep their samples. Every series that gets a value must have a sample slot.
pub fn record_points<T: Copy>(
    datas: &mut Vec<Dataset<T>>,
    points: &Vec<T>,
    template: &Dataset<T>,
    blank: T,
    origin: T,
)
    requires
        forall|i: int|
            0 <= i < old(datas)@.len() && i < points@.len() ==> (#[trigger] old(datas)@[i]).samples().len() > 0,
        points@.len() > old(datas)@.len() ==> growth_base(old(datas)@, *template).samples().len() > 0,
    ensures
        final(datas)@.len() == if points@.len() > old(datas)@.len() {
            points@.len() as int
        } else {
            old(datas)@.len() as int
        },
        forall|i: int|
            0 <= i < final(datas)@.len() ==> {
                &&& i < old(datas)@.len() && i >= points@.len() ==> #[trigger] final(datas)@[i] == old(datas)@[i]
                &&& i < old(datas)@.len() && i < points@.len() ==> final(datas)@[i].samples() == seq![points@[i]] + old(datas)@[i].samples().drop_last()
                    && final(datas)@[i].axis() == old(datas)@[i].axis()
                    && final(datas)@[i].used() == old(datas)@[i].used()
                &&& i >= old(datas)@.len() ==> {
                    let base = growth_base(old(datas)@, *template);
                    &&& final(datas)@[i].samples() == seq![points@[i]] + blank_samples(
                        base.samples().len(),
                        blank,
                        origin,
                    ).drop_last()
                    &&& final(datas)@[i].axis() == base.axis()
                    &&& final(datas)@[i].used() == base.used()
                }
            },
{
    let ghost start = datas@;
    grow_to(datas, points.len(), template, blank, origin);
    let ghost grown = datas@;
    proof {
        let base = if start.len() > 0 {
            start.last()
        } else {
            *template
        };
        assert forall|k: int| 0 <= k < points@.len() implies (#[trigger] grown[k]).samples().len() > 0 by {
            if k >= start.len() {
                assert(is_blank_like(grown[k], base, blank, origin));
            }
        }
    }
    let mut i: usize = 0;
    while i < points.len()
        invariant
            i <= points@.len(),
            datas@.len() == grown.len(),
            points@.len() <= grown.len(),
            forall|k: int| 0 <= k < points@.len() ==> (#[trigger] grown[k]).samples().len() > 0,
            forall|k: int| 0 <= k < i ==> (#[trigger] datas@[k]).samples() == seq![points@[k]] + grown[k].samples().drop_last()
                && datas@[k].axis() == grown[k].axis() && datas@[k].used() == grown[k].used(),
            forall|k: int| i <= k < grown.len() ==> #[trigger] datas@[k] == grown[k],
        decreases points.len() - i,
    {
        let ghost before = datas@;
        let mut set = datas.remove(i);
        set.push_sample(points[i]);
        datas.insert(i, set);
        proof {
            assert forall|k: int| 0 <= k < datas@.len() && k != i implies #[trigger] datas@[k] == before[k] by {
            }
        }
        i += 1;
    }

}

/// Adds copies of `template` until there are at least `sets` series.
pub fn set_datasets<T: Copy>(datas: &mut Vec<Dataset<T>>, sets: usize, template: &Dataset<T>)
    ensures
        final(datas)@.len() == if sets > old(datas)@.len() {
            sets as int
        } else {
            old(datas)@.len() as int
        },
        forall|i: int| 0 <= i < old(datas)@.len() ==> #[trigger] final(datas)@[i] == old(datas)@[i],
        forall|i: int|
            old(datas)@.len() <= i < final(datas)@.len() ==> (#[trigger] final(datas)@[i]).samples()
                == template.samples() && final(datas)@[i].axis() == template.axis()
                && final(datas)@[i].used() == template.used(),
{
    let ghost start = datas@;
    while datas.len() < sets
        invariant
            start.len() <= datas@.len(),
            sets >= start.len() ==> datas@.len() <= sets,
            sets < start.len() ==> datas@.len() == start.len(),
            forall|i: int| 0 <= i < start.len() ==> #[trigger] datas@[i] == start[i],
            forall|i: int|
                start.len() <= i < datas@.len() ==> (#[trigger] datas@[i]).samples()
                    == template.samples() && datas@[i].axis() == template.axis()
                    && datas@[i].used() == template.used(),
        decreases sets - datas.len(),
    {
        datas.push(template.copy());
    }
}

/// Shows `new_points` samples in every series.
pub fn update_data_points<T: Copy>(datas: &mut Vec<Dataset<T>>, new_points: usize)
    ensures
        final(datas)@.len() == old(datas)@.len(),
        forall|i: int|
            0 <= i < final(datas)@.len() ==> (#[trigger] final(datas)@[i]).used() == new_points
                && final(datas)@[i].samples() == old(datas)@[i].samples()
                && final(datas)@[i].axis() == old(datas)@[i].axis(),
{
    let ghost start = datas@;
    let mut i: usize = 0;
    while i < datas.len()
        invariant
            i <= datas@.len(),
            datas@.len() == start.len(),
            forall|k: int|
                0 <= k < i ==> (#[trigger] datas@[k]).used() == new_points && datas@[k].samples()
                    == start[k].samples() && datas@[k].axis() == start[k].axis(),
            forall|k: int| i <= k < datas@.len() ==> #[trigger] datas@[k] == start[k],
        decreases datas.len() - i,
    {
        let mut set = datas.remove(i);
        set.update_data_points(new_points);
        datas.insert(i, set);
        i += 1;
    }
}

} // verus!
