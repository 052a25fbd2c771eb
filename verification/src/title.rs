use vstd::prelude::*;

verus! {

/// The closed set of record categories that survive ingestion; everything
/// else in the corpus (series, episodes, ...) is discarded.
#[derive(Copy, Clone, Debug, PartialEq, Eq, Structural)]
pub enum TitleKind {
    Movie,
    TvMovie,
    Video,
    Short,
}

/// The mathematical value of a `Title`: every text field as a sequence of
/// characters. Contracts and laws are stated over this view.
pub struct TitleView {
    pub id: u32,
    pub year: u16,
    pub runtime: u16,
    pub primary_title: Seq<char>,
    pub original_title: Option<Seq<char>>,
    pub kind: TitleKind,
    pub votes: u32,
}

/// The views of a whole record table.
pub open spec fn views_of(s: Seq<Title>) -> Seq<TitleView> {
    s.map_values(|t: Title| t@)
}

/// Well-formedness of a record table: ids are distinct.
pub open spec fn tbl_wf(vs: Seq<TitleView>) -> bool {
    forall|i: int, j: int| 0 <= i < j < vs.len() ==> (#[trigger] vs[i]).id != (#[trigger] vs[j]).id
}

/// One canonical movie record, immutable once built.
///
/// `year` and `runtime` are non-zero for every record that ingestion keeps,
/// and `original_title` is present only when it differs from `primary_title`.
#[derive(Debug)]
pub struct Title {
    pub id: u32,
    pub year: u16,
    pub runtime: u16,
    pub primary_title: String,
    pub original_title: Option<String>,
    pub kind: TitleKind,
    pub votes: u32,
}

impl View for Title {
    type V = TitleView;

    open spec fn view(&self) -> TitleView {
        TitleView {
            id: self.id,
            year: self.year,
            runtime: self.runtime,
            primary_title: self.primary_title@,
            original_title: match self.original_title {
                Some(ref s) => Some(s@),
                None => None,
            },
            kind: self.kind,
            votes: self.votes,
        }
    }
}

impl Title {
    #[inline]
    pub fn id(&self) -> (r: u32)
        ensures
            r == self.id,
    {
        self.id
    }

    #[inline]
    pub fn year(&self) -> (r: i32)
        ensures
            r == self.year as i32,
    {
        self.year as i32
    }

    #[inline]
    pub fn runtime(&self) -> (r: i32)
        ensures
            r == self.runtime as i32,
    {
        self.runtime as i32
    }

    #[inline]
    pub fn primary_title(&self) -> (r: &str)
        ensures
            r@ == self@.primary_title,
    {
        self.primary_title.as_str()
    }

    #[inline]
    pub fn original_title(&self) -> (r: Option<&str>)
        ensures
            match r {
                Some(s) => self@.original_title == Some(s@),
                None => self@.original_title is None,
            },
    {
        match self.original_title {
            Some(ref s) => Some(s.as_str()),
            None => None,
        }
    }

    #[inline]
    pub fn kind(&self) -> (r: TitleKind)
        ensures
            r == self.kind,
    {
        self.kind
    }

    #[inline]
    pub fn votes(&self) -> (r: u32)
        ensures
            r == self.votes,
    {
        self.votes
    }
}

/// Identity of a record is its corpus id alone: two records compare equal
/// exactly when their ids do.
impl PartialEq for Title {
    fn eq(&self, other: &Title) -> (r: bool) {
        self.id == other.id
    }
}

impl vstd::std_specs::cmp::PartialEqSpecImpl for Title {
    open spec fn obeys_eq_spec() -> bool {
        true
    }

    open spec fn eq_spec(&self, other: &Title) -> bool {
        self.id == other.id
    }
}

impl Eq for Title {}

} // verus!
