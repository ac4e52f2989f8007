use vstd::prelude::*;

verus! {

/// A cubic Bézier curve from the current point, by its three control points.
#[derive(Debug, Clone)]
pub struct Bezier<P> {
    pub p1: P,
    pub p2: P,
    pub p3: P,
}

impl<P> Bezier<P> {
    pub fn new(p1: P, p2: P, p3: P) -> (r: Bezier<P>)
        ensures
            r.p1 == p1,
            r.p2 == p2,
            r.p3 == p3,
    {
        Bezier { p1, p2, p3 }
    }

    pub fn p1(&self) -> (r: &P)
        ensures
            *r == self.p1,
    {
        &self.p1
    }

    pub fn p2(&self) -> (r: &P)
        ensures
            *r == self.p2,
    {
        &self.p2
    }

    pub fn p3(&self) -> (r: &P)
        ensures
            *r == self.p3,
    {
        &self.p3
    }
}

/// A segment of a path.
#[derive(Debug, Clone)]
pub enum Segment<P> {
    MoveTo(P),
    LineTo(P),
    CurveTo(Bezier<P>),
}

/// Whether `t` is `s` with each of its points mapped by `f`.
pub open spec fn segment_mapped<P, F: Fn(&P) -> P>(s: Segment<P>, t: Segment<P>, f: F) -> bool {
    match (s, t) {
        (Segment::MoveTo(p), Segment::MoveTo(q)) => f.ensures((&p,), q),
        (Segment::LineTo(p), Segment::LineTo(q)) => f.ensures((&p,), q),
        (Segment::CurveTo(b), Segment::CurveTo(c)) => {
            &&& f.ensures((&b.p1,), c.p1)
            &&& f.ensures((&b.p2,), c.p2)
            &&& f.ensures((&b.p3,), c.p3)
        },
        _ => false,
    }
}

impl<P> Segment<P> {
    /// The segment with each of its points mapped by `f` (a change of
    /// coordinates): a segment keeps its kind.
    pub fn transform<F: Fn(&P) -> P>(&self, f: &F) -> (r: Segment<P>)
        requires
            forall|p: P| #[trigger] f.requires((&p,)),
        ensures
            segment_mapped(*self, r, *f),
    {
        match self {
            Segment::MoveTo(p) => {
                let np = f(p);
                Segment::MoveTo(np)
            },
            Segment::LineTo(p) => {
                let np = f(p);
                Segment::LineTo(np)
            },
            Segment::CurveTo(bezier) => {
                let p1 = f(bezier.p1());
                let p2 = f(bezier.p2());
                let p3 = f(bezier.p3());
                Segment::CurveTo(Bezier::new(p1, p2, p3))
            },
        }
    }
}

/// A subpath: its segments, and whether it is closed.
#[derive(Debug, Clone)]
pub struct SubPath<P> {
    pub segments: Vec<Segment<P>>,
    pub closed: bool,
}

impl<P> Default for SubPath<P> {
    fn default() -> (r: SubPath<P>)
        ensures
            r.segments@.len() == 0,
            !r.closed,
    {
        SubPath { segments: Vec::new(), closed: false }
    }
}

impl<P> SubPath<P> {
    pub fn segments(&self) -> (r: &[Segment<P>])
        ensures
            r@ == self.segments@,
    {
        self.segments.as_slice()
    }

    pub fn new(segments: Vec<Segment<P>>, closed: bool) -> (r: SubPath<P>)
        ensures
            r.segments == segments,
            r.closed == closed,
    {
        SubPath { segments, closed }
    }

    pub fn add_segment(&mut self, segment: Segment<P>)
        ensures
            final(self).segments@ == old(self).segments@.push(segment),
            final(self).closed == old(self).closed,
    {
        self.segments.push(segment)
    }

    pub fn last_segment(&self) -> (r: Option<&Segment<P>>)
        ensures
            self.segments@.len() == 0 ==> r is None,
            self.segments@.len() > 0 ==> r == Some(&self.segments@.last()),
    {
        if self.segments.len() == 0 {
            None
        } else {
            Some(&self.segments[self.segments.len() - 1])
        }
    }

    /// The last segment, to be changed in place.
    pub fn last_mut_segment(&mut self) -> (r: Option<&mut Segment<P>>)
        ensures
            old(self).segments@.len() == 0 ==> r is None && final(self).segments@ == old(self).segments@
                && final(self).closed == old(self).closed,
            old(self).segments@.len() > 0 ==> (r matches Some(s) && *s == old(self).segments@.last()
                && final(self).segments@ == old(self).segments@.update(
                old(self).segments@.len() - 1,
                *final(s),
            ) && final(self).closed == old(self).closed),
    {
        self.segments.last_mut()
    }

    pub fn is_empty(&self) -> (r: bool)
        ensures
            r == (self.segments@.len() == 0),
    {
        self.segments.len() == 0
    }

    pub fn is_closed(&self) -> (r: bool)
        ensures
            r == self.closed,
    {
        self.closed
    }

    pub fn last_seg(&self) -> (r: Option<&Segment<P>>)
        ensures
            self.segments@.len() == 0 ==> r is None,
            self.segments@.len() > 0 ==> r == Some(&self.segments@.last()),
    {
        self.last_segment()
    }

    /// Takes the last segment off.
    pub fn pop(&mut self) -> (r: Option<Segment<P>>)
        ensures
            old(self).segments@.len() == 0 ==> r is None && final(self).segments@ == old(
                self,
            ).segments@,
            old(self).segments@.len() > 0 ==> r == Some(old(self).segments@.last())
                && final(self).segments@ == old(self).segments@.drop_last(),
            final(self).closed == old(self).closed,
    {
        self.segments.pop()
    }

    pub fn close(&mut self)
        ensures
            final(self).closed,
            final(self).segments == old(self).segments,
    {
        self.closed = true;
    }

    /// An open subpath that ends with a move loses that move.
    pub fn remove_last_opened_move(&mut self)
        ensures
            final(self).closed == old(self).closed,
            final(self).segments@ == (if !old(self).closed && old(self).segments@.len() > 0
                && old(self).segments@.last() is MoveTo {
                old(self).segments@.drop_last()
            } else {
                old(self).segments@
            }),
    {
        if self.closed {
            return;
        }
        let n = self.segments.len();
        if n > 0 {
            match &self.segments[n - 1] {
                Segment::MoveTo(_) => {
                    self.segments.pop();
                },
                _ => {},
            }
        }
    }

    /// The subpath with each of its points mapped by `f`.
    pub fn transform<F: Fn(&P) -> P>(&self, f: &F) -> (r: SubPath<P>)
        requires
            forall|p: P| #[trigger] f.requires((&p,)),
        ensures
            r.closed == self.closed,
            r.segments@.len() == self.segments@.len(),
            forall|i: int|
                0 <= i < self.segments@.len() ==> segment_mapped(
                    self.segments@[i],
                    #[trigger] r.segments@[i],
                    *f,
                ),
    {
        let mut segments: Vec<Segment<P>> = Vec::new();
        let mut i: usize = 0;
        while i < self.segments.len()
            invariant
                0 <= i <= self.segments@.len(),
                forall|p: P| #[trigger] f.requires((&p,)),
                segments@.len() == i,
                forall|j: int|
                    0 <= j < i ==> segment_mapped(self.segments@[j], #[trigger] segments@[j], *f),
            decreases self.segments.len() - i,
        {
            let new_seg = self.segments[i].transform(f);
            segments.push(new_seg);
            i = i + 1;
        }
        SubPath::new(segments, self.closed)
    }
}

/// A path: its subpaths in order.
#[derive(Debug, Clone)]
pub struct PdfPath<P> {
    pub subpaths: Vec<SubPath<P>>,
}

impl<P> Default for PdfPath<P> {
    fn default() -> (r: PdfPath<P>)
        ensures
            r.subpaths@.len() == 0,
    {
        PdfPath { subpaths: Vec::new() }
    }
}

impl<P> PdfPath<P> {
    pub fn is_empty(&self) -> (r: bool)
        ensures
            r == (self.subpaths@.len() == 0),
    {
        self.subpaths.len() == 0
    }

    /// Closes every subpath.
    pub fn close_all(&mut self)
        ensures
            final(self).subpaths@.len() == old(self).subpaths@.len(),
            forall|i: int|
                0 <= i < old(self).subpaths@.len() ==> (#[trigger] final(self).subpaths@[i]).closed
                    && final(self).subpaths@[i].segments == old(self).subpaths@[i].segments,
    {
        let n = self.subpaths.len();
        let mut i: usize = 0;
        while i < n
            invariant
                n == old(self).subpaths@.len(),
                0 <= i <= n,
                self.subpaths@.len() == n,
                forall|j: int| 0 <= j < i ==> (#[trigger] self.subpaths@[j]).closed,
                forall|j: int|
                    0 <= j < n ==> (#[trigger] self.subpaths@[j]).segments == old(self).subpaths@[j].segments,
            decreases n - i,
        {
            let mut sp = self.subpaths.remove(i);
            sp.close();
            self.subpaths.insert(i, sp);
            i = i + 1;
        }
    }

    pub fn add_subpath(&mut self, subpath: SubPath<P>)
        ensures
            final(self).subpaths@ == old(self).subpaths@.push(subpath),
    {
        self.subpaths.push(subpath)
    }

    /// The last subpath, to be changed in place.
    pub fn last_mut_subpath(&mut self) -> (r: Option<&mut SubPath<P>>)
        ensures
            old(self).subpaths@.len() == 0 ==> r is None && final(self).subpaths@ == old(self).subpaths@,
            old(self).subpaths@.len() > 0 ==> (r matches Some(s) && *s == old(self).subpaths@.last()
                && final(self).subpaths@ == old(self).subpaths@.update(
                old(self).subpaths@.len() - 1,
                *final(s),
            )),
    {
        self.subpaths.last_mut()
    }

    pub fn subpaths(&self) -> (r: &[SubPath<P>])
        ensures
            r@ == self.subpaths@,
    {
        self.subpaths.as_slice()
    }
}

} // verus!
