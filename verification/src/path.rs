//! Path addressing: a route into a nested value or kind, made of field
//! names, numeric indices, and first-match alternatives.
use vstd::prelude::*;

verus! {

/// Model of one path segment.
pub enum Seg {
    Field(Seq<char>),
    Index(int),
    Coalesce(Seq<Seq<char>>),
}

/// One step of a path: a field name, an array index, or an ordered list of
/// candidate field names of which the first present one wins.
#[derive(Debug, PartialEq)]
pub enum Segment {
    Field(String),
    Index(usize),
    Coalesce(Vec<String>),
}

impl Segment {
    /// Model of this segment.
    pub open spec fn model(self) -> Seg {
        match self {
            Segment::Field(f) => Seg::Field(f@),
            Segment::Index(i) => Seg::Index(i as int),
            Segment::Coalesce(names) => Seg::Coalesce(names@.map_values(|n: String| n@)),
        }
    }

    /// A coalesce segment must offer at least one candidate.
    pub open spec fn wf(self) -> bool {
        match self {
            Segment::Coalesce(names) => names@.len() > 0,
            _ => true,
        }
    }
}

/// An ordered route into nested structured data. The empty path denotes the
/// root. Immutable once built.
#[derive(Debug, PartialEq)]
pub struct Path {
    pub segments: Vec<Segment>,
}

impl Path {
    /// Model of this path: the sequence of segment models.
    pub open spec fn model(self) -> Seq<Seg> {
        self.segments@.map_values(|s: Segment| s.model())
    }

    pub open spec fn wf(self) -> bool {
        forall|i: int| 0 <= i < self.segments@.len() ==> (#[trigger] self.segments@[i]).wf()
    }

    /// The empty path: it addresses the root itself.
    pub fn root() -> (r: Path)
        ensures
            r.model() == Seq::<Seg>::empty(),
            r.wf(),
    {
        let r = Path { segments: Vec::new() };
        proof {
            assert(r.model() =~= Seq::<Seg>::empty());
        }
        r
    }

    /// Extends the path by one field segment.
    pub fn then_field(self, name: String) -> (r: Path)
        ensures
            r.model() == self.model().push(Seg::Field(name@)),
            self.wf() ==> r.wf(),
    {
        let ghost orig = self;
        let mut segments = self.segments;
        segments.push(Segment::Field(name));
        let r = Path { segments };
        proof {
            assert(r.model() =~= orig.model().push(Seg::Field(name@)));
            assert forall|i: int| 0 <= i < r.segments@.len() && orig.wf() implies
                (#[trigger] r.segments@[i]).wf() by {
                if i < orig.segments@.len() {
                    assert(orig.segments@[i].wf());
                }
            }
        }
        r
    }

    /// Extends the path by one index segment.
    pub fn then_index(self, index: usize) -> (r: Path)
        ensures
            r.model() == self.model().push(Seg::Index(index as int)),
            self.wf() ==> r.wf(),
    {
        let ghost orig = self;
        let mut segments = self.segments;
        segments.push(Segment::Index(index));
        let r = Path { segments };
        proof {
            assert(r.model() =~= orig.model().push(Seg::Index(index as int)));
            assert forall|i: int| 0 <= i < r.segments@.len() && orig.wf() implies
                (#[trigger] r.segments@[i]).wf() by {
                if i < orig.segments@.len() {
                    assert(orig.segments@[i].wf());
                }
            }
        }
        r
    }

    /// Extends the path by one coalesce segment over the given candidates.
    pub fn then_coalesce(self, names: Vec<String>) -> (r: Path)
        requires
            names@.len() > 0,
        ensures
            r.model() == self.model().push(Seg::Coalesce(names@.map_values(|n: String| n@))),
            self.wf() ==> r.wf(),
    {
        let ghost orig = self;
        let mut segments = self.segments;
        segments.push(Segment::Coalesce(names));
        let r = Path { segments };
        proof {
            assert(r.model() =~= orig.model().push(r.segments@.last().model()));
            assert forall|i: int| 0 <= i < r.segments@.len() && orig.wf() implies
                (#[trigger] r.segments@[i]).wf() by {
                if i < orig.segments@.len() {
                    assert(orig.segments@[i].wf());
                }
            }
        }
        r
    }
}

} // verus!
