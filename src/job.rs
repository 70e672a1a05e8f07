//! The job index: dimensions, jobs (cells of the index space), the row-major
//! job stack, and the job manager that hands jobs out and takes them back.
use std::time::SystemTime;
use vstd::prelude::*;

use crate::space::{
    cursor_shape, is_cell_of, lemma_rank_bounds, lemma_rank_concat, lemma_total_concat,
    lemma_unrank, lemma_unrank_rank, rank, spans_of, total, unrank, valid_spans,
};
use crate::text::{
    chars_of, decimal, join_with, parse_decimal, parse_decimal_range, push_char, push_decimal,
    split_on, split_ranges,
};

verus! {

/// Errors of the job index and the job manager.
#[derive(Debug, Clone, Copy, PartialEq, Eq, Structural)]
pub enum Error {
    DimensionMismatch,
    ZeroSizedDimension,
    OutOfBounds,
    UnexpectedString,
    JobNotFound,
}

/// One axis of the index space: a position `index` in `0 ..= span`, where
/// `index == span` means the axis is exhausted.
#[derive(Debug, Clone, Copy, PartialEq, Eq, Hash, Structural)]
pub struct JobDimension {
    pub index: usize,
    pub span: usize,
}

/// `index/span`, both in decimal.
pub open spec fn dimension_text(x: JobDimension) -> Seq<char> {
    decimal(x.index as nat).push('/') + decimal(x.span as nat)
}

/// Lower and upper bound of an index as fractions `(numerator, denominator)`:
/// `index/span` and `(index+1)/span`, the upper one `1/1` at the last index.
pub open spec fn bounds_of(d: JobDimension) -> ((int, int), (int, int)) {
    (
        (d.index as int, d.span as int),
        if d.index + 1 == d.span {
            (1, 1)
        } else {
            (d.index + 1, d.span as int)
        },
    )
}

impl JobDimension {
    /// A fresh axis of the given span, positioned at 0.
    pub fn new(span: usize) -> (r: Result<Self, Error>)
        ensures
            span == 0 ==> r == Err::<Self, Error>(Error::ZeroSizedDimension),
            span > 0 ==> r == Ok::<Self, Error>(JobDimension { index: 0, span }),
    {
        if span == 0 {
            return Err(Error::ZeroSizedDimension);
        }
        Ok(Self { index: 0, span })
    }

    pub fn has_job(&self) -> (r: bool)
        ensures
            r == (self.index < self.span),
    {
        self.index < self.span
    }

    pub fn is_finished(&self) -> (r: bool)
        ensures
            r == (self.index >= self.span),
    {
        !self.has_job()
    }

    pub fn reset(&mut self)
        ensures
            final(self).index == 0,
            final(self).span == old(self).span,
    {
        self.index = 0;
    }

    /// The share of the axis before this index and up to the next one, as
    /// fractions `(numerator, denominator)`: `index/span` and
    /// `(index+1)/span`, the upper one written exactly `1/1` at the last index.
    pub fn bounds_fraction(&self) -> (r: ((usize, usize), (usize, usize)))
        requires
            self.index <= self.span,
            self.span > 0,
            self.index < usize::MAX,
        ensures
            (r.0.0 as int, r.0.1 as int) == bounds_of(*self).0,
            (r.1.0 as int, r.1.1 as int) == bounds_of(*self).1,
    {
        let lower = (self.index, self.span);
        let upper = if self.index + 1 == self.span {
            (1, 1)
        } else {
            (self.index + 1, self.span)
        };
        (lower, upper)
    }

    /// `index/span`.
    pub fn to_string(&self) -> (r: String)
        ensures
            r@ == dimension_text(*self),
    {
        let mut r = String::new();
        push_decimal(&mut r, self.index);
        push_char(&mut r, '/');
        push_decimal(&mut r, self.span);
        r
    }

    /// Yields the current index and moves to the next one, until the axis is exhausted.
    pub fn next(&mut self) -> (r: Option<usize>)
        ensures
            old(self).index < old(self).span ==> r == Some(old(self).index) && final(self).index
                == old(self).index + 1,
            old(self).index >= old(self).span ==> r is None && final(self).index == old(
                self,
            ).index,
            final(self).span == old(self).span,
    {
        if self.has_job() {
            let result = self.index;
            self.index = self.index + 1;
            Some(result)
        } else {
            None
        }
    }
}


/// The job built from an index vector and a span vector: the vectors must
/// have the same length and every index must lie below its span.
pub open spec fn job_from(indices: Seq<usize>, spans: Seq<usize>) -> Result<Seq<JobDimension>, Error> {
    if indices.len() != spans.len() {
        Err(Error::DimensionMismatch)
    } else if exists|k: int| 0 <= k < indices.len() && indices[k] >= spans[k] {
        Err(Error::OutOfBounds)
    } else {
        Ok(Seq::new(indices.len(), |k: int| JobDimension { index: indices[k], span: spans[k] }))
    }
}

/// The decimal indices of a job.
pub open spec fn index_texts(d: Seq<JobDimension>) -> Seq<Seq<char>> {
    Seq::new(d.len(), |k: int| decimal(d[k].index as nat))
}

/// URI of a job: its decimal indices joined by `/`, with no leading slash.
pub open spec fn uri_of(d: Seq<JobDimension>) -> Seq<char> {
    join_with(index_texts(d), '/')
}

/// Reads a URI against a span vector: every `/`-separated piece must be a
/// number, else `UnexpectedString`; then the job is built as `job_from` says.
pub open spec fn uri_parse(s: Seq<char>, spans: Seq<usize>) -> Result<Seq<JobDimension>, Error> {
    let pieces = split_on(s, '/');
    if exists|k: int| 0 <= k < pieces.len() && parse_decimal(#[trigger] pieces[k]) is None {
        Err(Error::UnexpectedString)
    } else {
        job_from(Seq::new(pieces.len(), |k: int| parse_decimal(pieces[k])->0), spans)
    }
}

/// Body encoding of a job: one line `index/span` per dimension, each ended by CRLF.
pub open spec fn body_of(d: Seq<JobDimension>) -> Seq<char>
    decreases d.len(),
{
    if d.len() == 0 {
        Seq::empty()
    } else {
        body_of(d.drop_last()) + dimension_text(d.last()).push('\r').push('\n')
    }
}

/// The two numbers of a body line `index/span` ended by CR (the LF is the separator).
pub open spec fn line_fields(line: Seq<char>) -> Option<(usize, usize)> {
    if line.len() >= 1 && line.last() == '\r' {
        let f = split_on(line.drop_last(), '/');
        if f.len() == 2 && parse_decimal(f[0]) is Some && parse_decimal(f[1]) is Some {
            Some((parse_decimal(f[0])->0, parse_decimal(f[1])->0))
        } else {
            None
        }
    } else {
        None
    }
}

/// Reads a body encoding: one or more lines `index/span` each ended by CRLF
/// and nothing after the last, else `UnexpectedString`; then the job is
/// built as `job_from` says.
pub open spec fn body_parse(s: Seq<char>) -> Result<Seq<JobDimension>, Error> {
    let lines = split_on(s, '\n');
    let n = lines.len() - 1;
    if n >= 1 && lines.last().len() == 0 && forall|k: int|
        0 <= k < n ==> (#[trigger] line_fields(lines[k])) is Some {
        job_from(
            Seq::new(n as nat, |k: int| (line_fields(lines[k])->0).0),
            Seq::new(n as nat, |k: int| (line_fields(lines[k])->0).1),
        )
    } else {
        Err(Error::UnexpectedString)
    }
}

/// A cell of the index space. Two jobs are equal when their dimensions are.
#[derive(Debug, Hash)]
pub struct Job {
    index: Vec<JobDimension>,
}

/// A job result seen through the job's view.
pub open spec fn job_result(r: Result<Job, Error>) -> Result<Seq<JobDimension>, Error> {
    match r {
        Ok(j) => Ok(j@),
        Err(e) => Err(e),
    }
}

impl View for Job {
    type V = Seq<JobDimension>;

    closed spec fn view(&self) -> Seq<JobDimension> {
        self.index@
    }
}

impl PartialEq for Job {
    fn eq(&self, o: &Job) -> (r: bool) {
        if self.index.len() != o.index.len() {
            return false;
        }
        let mut k: usize = 0;
        while k < self.index.len()
            invariant
                self.index.len() == o.index.len(),
                k <= self.index.len(),
                forall|j: int| 0 <= j < k ==> self.index@[j] == o.index@[j],
            decreases self.index.len() - k,
        {
            if self.index[k] != o.index[k] {
                return false;
            }
            k = k + 1;
        }
        assert(self.index@ =~= o.index@);
        true
    }
}

impl vstd::std_specs::cmp::PartialEqSpecImpl for Job {
    open spec fn obeys_eq_spec() -> bool {
        true
    }

    open spec fn eq_spec(&self, o: &Job) -> bool {
        self@ == o@
    }
}

impl Eq for Job {

}

impl Clone for Job {
    fn clone(&self) -> (r: Self)
        ensures
            r@ == self@,
    {
        let mut index: Vec<JobDimension> = Vec::new();
        let mut k: usize = 0;
        while k < self.index.len()
            invariant
                k <= self.index.len(),
                index@ == self.index@.take(k as int),
            decreases self.index.len() - k,
        {
            index.push(self.index[k]);
            assert(index@ =~= self.index@.take(k + 1));
            k = k + 1;
        }
        assert(index@ =~= self.index@);
        Job { index }
    }
}

impl Job {
    /// The job at `index` in the space spanned by `dimensions`.
    pub fn new(index: &Vec<usize>, dimensions: &Vec<usize>) -> (r: Result<Self, Error>)
        ensures
            job_result(r) == job_from(index@, dimensions@),
    {
        if index.len() != dimensions.len() {
            return Err(Error::DimensionMismatch);
        }
        let order = dimensions.len();
        let mut result: Vec<JobDimension> = Vec::with_capacity(order);
        let mut k: usize = 0;
        while k < order
            invariant
                order == index.len() == dimensions.len(),
                k <= order,
                result.len() == k,
                forall|j: int|
                    0 <= j < k ==> (#[trigger] result@[j]).index == index@[j] && result@[j].span
                        == dimensions@[j] && index@[j] < dimensions@[j],
            decreases order - k,
        {
            if index[k] >= dimensions[k] {
                return Err(Error::OutOfBounds);
            }
            result.push(JobDimension { index: index[k], span: dimensions[k] });
            k = k + 1;
        }
        assert forall|j: int| 0 <= j < order implies index@[j] < dimensions@[j] by {
            assert(result@[j].index == index@[j]);
        }
        let r = Job { index: result };
        assert(r@ =~= job_from(index@, dimensions@)->Ok_0);
        Ok(r)
    }

    /// Number of dimensions.
    pub fn order(&self) -> (r: usize)
        ensures
            r == self@.len(),
    {
        self.index.len()
    }

    /// The span vector.
    pub fn dimensions(&self) -> (r: Vec<usize>)
        ensures
            r@ == spans_of(self@),
    {
        let mut result: Vec<usize> = Vec::with_capacity(self.index.len());
        let mut k: usize = 0;
        while k < self.index.len()
            invariant
                k <= self.index.len(),
                result@ == spans_of(self@).take(k as int),
            decreases self.index.len() - k,
        {
            result.push(self.index[k].span);
            assert(result@ =~= spans_of(self@).take(k + 1));
            k = k + 1;
        }
        assert(result@ =~= spans_of(self@));
        result
    }

    /// The URI encoding: decimal indices joined by `/`.
    pub fn to_uri(&self) -> (r: String)
        ensures
            r@ == uri_of(self@),
    {
        let mut result = String::new();
        let mut k: usize = 0;
        while k < self.index.len()
            invariant
                k <= self.index.len(),
                result@ == join_with(index_texts(self@).take(k as int), '/'),
            decreases self.index.len() - k,
        {
            let ghost before = index_texts(self@).take(k as int);
            let ghost after = index_texts(self@).take(k + 1);
            assert(after.drop_last() =~= before);
            if k > 0 {
                push_char(&mut result, '/');
            } else {
                assert(before =~= Seq::<Seq<char>>::empty());
            }
            push_decimal(&mut result, self.index[k].index);
            assert(result@ =~= join_with(after, '/'));
            k = k + 1;
        }
        assert(index_texts(self@).take(k as int) =~= index_texts(self@));
        result
    }

    /// Reads a body encoding back into a job.
    pub fn parse(text: &String) -> (r: Result<Job, Error>)
        ensures
            job_result(r) == body_parse(text@),
    {
        let v = chars_of(text.as_str());
        assert(v@.subrange(0, v.len() as int) =~= v@);
        let lines = split_ranges(&v, 0, v.len(), '\n');
        let ghost ls = split_on(v@, '\n');
        proof {
            crate::text::lemma_split_on_len(v@, '\n');
        }
        let n: usize = lines.len() - 1;
        if n == 0 || lines[n].0 != lines[n].1 {
            assert(ls.last() == ls[n as int]);
            return Err(Error::UnexpectedString);
        }
        assert(ls.last() == ls[n as int]);
        let mut indices: Vec<usize> = Vec::with_capacity(n);
        let mut spans: Vec<usize> = Vec::with_capacity(n);
        let mut k: usize = 0;
        while k < n
            invariant
                n + 1 == lines.len() == ls.len(),
                v@ == text@,
                ls == split_on(v@, '\n'),
                forall|j: int|
                    0 <= j < lines.len() ==> (#[trigger] lines[j]).0 <= lines[j].1 <= v.len()
                        && v@.subrange(lines[j].0 as int, lines[j].1 as int) == ls[j],
                k <= n,
                indices.len() == k,
                spans.len() == k,
                forall|j: int|
                    0 <= j < k ==> (#[trigger] line_fields(ls[j])) is Some && indices@[j] == (
                    line_fields(ls[j])->0).0 && spans@[j] == (line_fields(ls[j])->0).1,
            decreases n - k,
        {
            let (lo, hi) = lines[k];
            assert(v@.subrange(lo as int, hi as int) == ls[k as int]);
            match read_line_fields(&v, lo, hi) {
                Some((i, s)) => {
                    indices.push(i);
                    spans.push(s);
                },
                None => {
                    assert(line_fields(ls[k as int]) is None);
                    return Err(Error::UnexpectedString);
                },
            }
            k = k + 1;
        }
        assert(indices@ =~= Seq::new(n as nat, |k: int| (line_fields(ls[k])->0).0));
        assert(spans@ =~= Seq::new(n as nat, |k: int| (line_fields(ls[k])->0).1));
        Job::new(&indices, &spans)
    }

    /// The body encoding: one line `index/span` per dimension, each ended by CRLF.
    pub fn to_string(&self) -> (r: String)
        ensures
            r@ == body_of(self@),
    {
        let mut result = String::new();
        let mut k: usize = 0;
        while k < self.index.len()
            invariant
                k <= self.index.len(),
                result@ == body_of(self@.take(k as int)),
            decreases self.index.len() - k,
        {
            assert(self@.take(k + 1).drop_last() =~= self@.take(k as int));
            let line = self.index[k].to_string();
            result.append(line.as_str());
            push_char(&mut result, '\r');
            push_char(&mut result, '\n');
            assert(result@ =~= body_of(self@.take(k + 1)));
            k = k + 1;
        }
        assert(self@.take(k as int) =~= self@);
        result
    }
}

/// The two numbers of the body line `v[lo .. hi]`.
fn read_line_fields(v: &Vec<char>, lo: usize, hi: usize) -> (r: Option<(usize, usize)>)
    requires
        lo <= hi <= v.len(),
    ensures
        r == line_fields(v@.subrange(lo as int, hi as int)),
{
    let ghost line = v@.subrange(lo as int, hi as int);
    if hi == lo || v[hi - 1] != '\r' {
        return None;
    }
    assert(line.drop_last() =~= v@.subrange(lo as int, hi - 1));
    let f = split_ranges(v, lo, hi - 1, '/');
    if f.len() != 2 {
        return None;
    }
    let a = parse_decimal_range(v, f[0].0, f[0].1);
    let b = parse_decimal_range(v, f[1].0, f[1].1);
    match (a, b) {
        (Some(x), Some(y)) => Some((x, y)),
        _ => None,
    }
}

/// A cursor over the index space, at one job (the top), advancing in
/// row-major order with the last index fastest.
pub struct JobStack {
    top: Job,
}

impl JobStack {
    /// The span vector of the space.
    pub closed spec fn spans(&self) -> Seq<usize> {
        spans_of(self.top@)
    }

    /// Row-major position of the top: the number of jobs already emitted.
    pub closed spec fn position(&self) -> int {
        rank(self.top@)
    }

    pub closed spec fn wf(&self) -> bool {
        cursor_shape(self.top@)
    }

    pub proof fn lemma_wf(&self)
        requires
            self.wf(),
        ensures
            valid_spans(self.spans()),
            0 <= self.position() <= total(self.spans()),
    {
        lemma_rank_bounds(self.top@);
    }

    /// A stack at the first cell of the space spanned by `dimensions`; fails
    /// with `ZeroSizedDimension` when there is no dimension or one of them is 0.
    pub fn new(dimensions: &Vec<usize>) -> (r: Result<JobStack, Error>)
        ensures
            !valid_spans(dimensions@) ==> r == Err::<JobStack, Error>(Error::ZeroSizedDimension),
            valid_spans(dimensions@) ==> (r matches Ok(s) && s.wf() && s.spans() == dimensions@
                && s.position() == 0),
    {
        if dimensions.len() == 0 {
            return Err(Error::ZeroSizedDimension);
        }
        let mut index: Vec<JobDimension> = Vec::with_capacity(dimensions.len());
        let mut k: usize = 0;
        while k < dimensions.len()
            invariant
                k <= dimensions.len(),
                index.len() == k,
                forall|j: int|
                    0 <= j < k ==> #[trigger] index@[j] == (JobDimension { index: 0, span: dimensions@[j] }),
                forall|j: int| 0 <= j < k ==> #[trigger] dimensions@[j] > 0,
            decreases dimensions.len() - k,
        {
            if dimensions[k] == 0 {
                return Err(Error::ZeroSizedDimension);
            }
            let ghost before = index@;
            index.push(JobDimension { index: 0, span: dimensions[k] });
            assert(forall|j: int| 0 <= j < k ==> index@[j] == before[j]);
            k = k + 1;
        }
        let top = Job { index };
        assert(spans_of(top@) =~= dimensions@);
        proof {
            crate::space::lemma_rank_zero(top@);
        }
        Ok(JobStack { top })
    }

    /// Number of dimensions.
    pub fn order(&self) -> (r: usize)
        ensures
            r == self.spans().len(),
    {
        self.top.order()
    }

    /// True once every job has been emitted.
    pub fn is_empty(&self) -> (r: bool)
        requires
            self.wf(),
        ensures
            r == (self.position() == total(self.spans())),
    {
        proof {
            lemma_rank_bounds(self.top@);
        }
        self.top.index[0].index >= self.top.index[0].span
    }

    /// Emits the job at the current position and advances; `None` once exhausted.
    pub fn next(&mut self) -> (r: Option<Job>)
        requires
            old(self).wf(),
        ensures
            final(self).wf(),
            final(self).spans() == old(self).spans(),
            old(self).position() < total(old(self).spans()) ==> (r matches Some(j) && j@ == unrank(
                old(self).spans(),
                old(self).position(),
            ) && final(self).position() == old(self).position() + 1),
            old(self).position() == total(old(self).spans()) ==> r is None && final(self).position()
                == old(self).position(),
    {
        proof {
            lemma_rank_bounds(self.top@);
            lemma_unrank_rank(self.top@);
        }
        if self.top.index[0].index >= self.top.index[0].span {
            return None;
        }
        let result = self.top.clone();
        advance(&mut self.top.index);
        Some(result)
    }
}

#[verifier::external_type_specification]
#[verifier::external_body]
pub struct ExSystemTime(SystemTime);

/// Relies on SystemTime::now: the current wall-clock time. Nothing is assumed of the value.
#[verifier::external_body]
fn now() -> SystemTime {
    SystemTime::now()
}

/// Pending entries seen as a map from job to issue time.
pub open spec fn entries_map(s: Seq<(Job, SystemTime)>) -> Map<Seq<JobDimension>, SystemTime> {
    Map::new(
        |c: Seq<JobDimension>| exists|i: int| 0 <= i < s.len() && (#[trigger] s[i]).0@ == c,
        |c: Seq<JobDimension>| s[choose|i: int| 0 <= i < s.len() && (#[trigger] s[i]).0@ == c].1,
    )
}

pub open spec fn keys_distinct(s: Seq<(Job, SystemTime)>) -> bool {
    forall|i: int, j: int|
        0 <= i < s.len() && 0 <= j < s.len() && i != j ==> (#[trigger] s[i]).0@ != (#[trigger] s[j]).0@
}

/// A list of jobs seen as a set.
pub open spec fn jobs_set(s: Seq<Job>) -> Set<Seq<JobDimension>> {
    Set::new(|c: Seq<JobDimension>| exists|i: int| 0 <= i < s.len() && (#[trigger] s[i])@ == c)
}

pub open spec fn jobs_distinct(s: Seq<Job>) -> bool {
    forall|i: int, j: int|
        0 <= i < s.len() && 0 <= j < s.len() && i != j ==> (#[trigger] s[i])@ != (#[trigger] s[j])@
}

/// A counter kept as a map, zero where the map has no entry.
pub open spec fn count(m: Map<Seq<JobDimension>, nat>, c: Seq<JobDimension>) -> nat {
    if m.dom().contains(c) {
        m[c]
    } else {
        0
    }
}

pub proof fn lemma_entries_at(s: Seq<(Job, SystemTime)>, i: int)
    requires
        keys_distinct(s),
        0 <= i < s.len(),
    ensures
        entries_map(s).dom().contains(s[i].0@),
        entries_map(s)[s[i].0@] == s[i].1,
{
    let c = s[i].0@;
    assert(exists|j: int| 0 <= j < s.len() && (#[trigger] s[j]).0@ == c);
    let j = choose|j: int| 0 <= j < s.len() && (#[trigger] s[j]).0@ == c;
    assert(j == i);
}

/// The entries after appending a new key.
pub proof fn lemma_entries_push(s: Seq<(Job, SystemTime)>, e: (Job, SystemTime))
    requires
        keys_distinct(s),
        !entries_map(s).dom().contains(e.0@),
    ensures
        keys_distinct(s.push(e)),
        entries_map(s.push(e)) == entries_map(s).insert(e.0@, e.1),
{
    let t = s.push(e);
    assert forall|i: int, j: int|
        0 <= i < t.len() && 0 <= j < t.len() && i != j implies (#[trigger] t[i]).0@ != (
    #[trigger] t[j]).0@ by {
        if i < s.len() && j < s.len() {
            assert(t[i] == s[i] && t[j] == s[j]);
        } else if i < s.len() {
            assert(t[i] == s[i]);
            assert(entries_map(s).dom().contains(s[i].0@));
        } else if j < s.len() {
            assert(t[j] == s[j]);
            assert(entries_map(s).dom().contains(s[j].0@));
        }
    }
    let m = entries_map(s).insert(e.0@, e.1);
    assert forall|c: Seq<JobDimension>| #[trigger] entries_map(t).dom().contains(c) <==> m.dom().contains(c) by {
        if entries_map(s).dom().contains(c) {
            let i = choose|i: int| 0 <= i < s.len() && (#[trigger] s[i]).0@ == c;
            assert(t[i] == s[i]);
        }
        if entries_map(t).dom().contains(c) && c != e.0@ {
            let i = choose|i: int| 0 <= i < t.len() && (#[trigger] t[i]).0@ == c;
            assert(t[i] == s[i]);
        }
        if c == e.0@ {
            assert(t[s.len() as int] == e);
        }
    }
    assert forall|c: Seq<JobDimension>| #[trigger] entries_map(t).dom().contains(c) implies entries_map(t)[c] == m[c] by {
        let i = choose|i: int| 0 <= i < t.len() && (#[trigger] t[i]).0@ == c;
        lemma_entries_at(t, i);
        if i < s.len() {
            assert(t[i] == s[i]);
            lemma_entries_at(s, i);
        }
    }
    assert(entries_map(t) =~= m);
}

/// The entries after removing the one at `i`.
pub proof fn lemma_entries_remove(s: Seq<(Job, SystemTime)>, i: int)
    requires
        keys_distinct(s),
        0 <= i < s.len(),
    ensures
        keys_distinct(s.remove(i)),
        entries_map(s.remove(i)) == entries_map(s).remove(s[i].0@),
{
    let t = s.remove(i);
    let k = s[i].0@;
    s.remove_ensures(i);
    assert forall|a: int, b: int|
        0 <= a < t.len() && 0 <= b < t.len() && a != b implies (#[trigger] t[a]).0@ != (
    #[trigger] t[b]).0@ by {
        let a2 = if a < i { a } else { a + 1 };
        let b2 = if b < i { b } else { b + 1 };
        assert(t[a] == s[a2] && t[b] == s[b2]);
    }
    let m = entries_map(s).remove(k);
    assert forall|c: Seq<JobDimension>| #[trigger] entries_map(t).dom().contains(c) <==> m.dom().contains(c) by {
        if entries_map(t).dom().contains(c) {
            let a = choose|a: int| 0 <= a < t.len() && (#[trigger] t[a]).0@ == c;
            let a2 = if a < i { a } else { a + 1 };
            assert(t[a] == s[a2]);
        }
        if m.dom().contains(c) {
            let a = choose|a: int| 0 <= a < s.len() && (#[trigger] s[a]).0@ == c;
            assert(a != i);
            let a1 = if a < i { a } else { a - 1 };
            assert(t[a1] == s[a]);
        }
    }
    assert forall|c: Seq<JobDimension>| #[trigger] entries_map(t).dom().contains(c) implies entries_map(t)[c] == m[c] by {
        let a = choose|a: int| 0 <= a < t.len() && (#[trigger] t[a]).0@ == c;
        let a2 = if a < i { a } else { a + 1 };
        assert(t[a] == s[a2]);
        lemma_entries_at(t, a);
        lemma_entries_at(s, a2);
    }
    assert(entries_map(t) =~= m);
}

pub proof fn lemma_jobs_remove(s: Seq<Job>, i: int)
    requires
        jobs_distinct(s),
        0 <= i < s.len(),
    ensures
        jobs_distinct(s.remove(i)),
        jobs_set(s.remove(i)) == jobs_set(s).remove(s[i]@),
{
    let t = s.remove(i);
    s.remove_ensures(i);
    assert forall|a: int, b: int|
        0 <= a < t.len() && 0 <= b < t.len() && a != b implies (#[trigger] t[a])@ != (
    #[trigger] t[b])@ by {
        let a2 = if a < i { a } else { a + 1 };
        let b2 = if b < i { b } else { b + 1 };
        assert(t[a] == s[a2] && t[b] == s[b2]);
    }
    assert forall|c: Seq<JobDimension>| #[trigger] jobs_set(t).contains(c) <==> jobs_set(s).remove(s[i]@).contains(c) by {
        if jobs_set(t).contains(c) {
            let a = choose|a: int| 0 <= a < t.len() && (#[trigger] t[a])@ == c;
            let a2 = if a < i { a } else { a + 1 };
            assert(t[a] == s[a2]);
        }
        if jobs_set(s).remove(s[i]@).contains(c) {
            let a = choose|a: int| 0 <= a < s.len() && (#[trigger] s[a])@ == c;
            let a1 = if a < i { a } else { a - 1 };
            assert(t[a1] == s[a]);
        }
    }
    assert(jobs_set(t) =~= jobs_set(s).remove(s[i]@));
}

pub proof fn lemma_jobs_push(s: Seq<Job>, j: Job)
    requires
        jobs_distinct(s),
        !jobs_set(s).contains(j@),
    ensures
        jobs_distinct(s.push(j)),
        jobs_set(s.push(j)) == jobs_set(s).insert(j@),
{
    let t = s.push(j);
    assert forall|a: int, b: int|
        0 <= a < t.len() && 0 <= b < t.len() && a != b implies (#[trigger] t[a])@ != (
    #[trigger] t[b])@ by {
        if a < s.len() {
            assert(t[a] == s[a]);
        }
        if b < s.len() {
            assert(t[b] == s[b]);
        }
    }
    assert forall|c: Seq<JobDimension>| #[trigger] jobs_set(t).contains(c) <==> jobs_set(s).insert(j@).contains(c) by {
        if jobs_set(t).contains(c) && c != j@ {
            let a = choose|a: int| 0 <= a < t.len() && (#[trigger] t[a])@ == c;
            assert(t[a] == s[a]);
        }
        if jobs_set(s).contains(c) {
            let a = choose|a: int| 0 <= a < s.len() && (#[trigger] s[a])@ == c;
            assert(t[a] == s[a]);
        }
        if c == j@ {
            assert(t[s.len() as int] == j);
        }
    }
    assert(jobs_set(t) =~= jobs_set(s).insert(j@));
}

/// Bookkeeping over the job stack: which jobs are out (pending, with the
/// time they were handed out) and which were returned for re-dispatch
/// (abandoned). Alongside, in ghost state, the jobs completed so far and, for
/// each cell, how many times it was handed out and how many times abandoned.
pub struct JobManager {
    stack: JobStack,
    pending: Vec<(Job, SystemTime)>,
    abandoned: Vec<Job>,
    completed: Ghost<Set<Seq<JobDimension>>>,
    issued: Ghost<Map<Seq<JobDimension>, nat>>,
    returned: Ghost<Map<Seq<JobDimension>, nat>>,
}

impl JobManager {
    pub closed spec fn spans(&self) -> Seq<usize> {
        self.stack.spans()
    }

    /// Number of jobs taken from the stack so far.
    pub closed spec fn position(&self) -> int {
        self.stack.position()
    }

    /// Jobs out, with the time each was handed out.
    pub closed spec fn pending(&self) -> Map<Seq<JobDimension>, SystemTime> {
        entries_map(self.pending@)
    }

    /// Jobs returned for re-dispatch.
    pub closed spec fn abandoned(&self) -> Set<Seq<JobDimension>> {
        jobs_set(self.abandoned@)
    }

    /// Jobs reported complete.
    pub closed spec fn completed(&self) -> Set<Seq<JobDimension>> {
        self.completed@
    }

    /// How many times `pop` has handed out the cell `c`.
    pub closed spec fn issue_count(&self, c: Seq<JobDimension>) -> nat {
        count(self.issued@, c)
    }

    /// How many times the cell `c` has been abandoned.
    pub closed spec fn abandon_count(&self, c: Seq<JobDimension>) -> nat {
        count(self.returned@, c)
    }

    /// `c` is a cell that has already been taken from the stack.
    pub open spec fn is_issued(&self, c: Seq<JobDimension>) -> bool {
        is_cell_of(c, self.spans()) && rank(c) < self.position()
    }

    /// Nothing left: the stack is exhausted and no job is pending or abandoned.
    pub open spec fn drained(&self) -> bool {
        &&& self.position() == total(self.spans())
        &&& self.pending().dom().is_empty()
        &&& self.abandoned().is_empty()
    }

    pub closed spec fn wf(&self) -> bool {
        &&& self.stack.wf()
        &&& keys_distinct(self.pending@)
        &&& jobs_distinct(self.abandoned@)
        &&& forall|c: Seq<JobDimension>| #[trigger]
            self.pending().dom().contains(c) ==> self.is_issued(c) && !self.abandoned().contains(c)
                && !self.completed().contains(c)
        &&& forall|c: Seq<JobDimension>| #[trigger]
            self.abandoned().contains(c) ==> self.is_issued(c) && !self.completed().contains(c)
        &&& forall|c: Seq<JobDimension>| #[trigger]
            self.completed().contains(c) ==> self.is_issued(c)
        &&& forall|c: Seq<JobDimension>| #[trigger]
            self.is_issued(c) ==> self.pending().dom().contains(c) || self.abandoned().contains(c)
                || self.completed().contains(c)
        &&& forall|c: Seq<JobDimension>| !self.is_issued(c) ==> #[trigger] self.issue_count(c) == 0
        &&& forall|c: Seq<JobDimension>| #[trigger]
            self.abandon_count(c) <= self.issue_count(c) <= self.abandon_count(c) + 1
        &&& forall|c: Seq<JobDimension>| #[trigger]
            self.pending().dom().contains(c) ==> self.issue_count(c) == self.abandon_count(c) + 1
        &&& forall|c: Seq<JobDimension>| #[trigger]
            self.abandoned().contains(c) ==> self.issue_count(c) == self.abandon_count(c)
    }

    pub proof fn lemma_wf(&self)
        requires
            self.wf(),
        ensures
            valid_spans(self.spans()),
            0 <= self.position() <= total(self.spans()),
    {
        self.stack.lemma_wf();
    }

    /// The sets the manager keeps apart: a job is never both pending and
    /// abandoned, and pending, abandoned and completed jobs are all cells of
    /// the space already taken from the stack, so none of them is among the
    /// jobs the stack has yet to emit. Completed jobs are neither pending nor
    /// abandoned, and every cell taken from the stack is in one of the three.
    pub proof fn lemma_disjoint(&self)
        requires
            self.wf(),
        ensures
            forall|c: Seq<JobDimension>| #[trigger]
                self.pending().dom().contains(c) ==> !self.abandoned().contains(c)
                    && !self.completed().contains(c) && self.is_issued(c),
            forall|c: Seq<JobDimension>| #[trigger]
                self.abandoned().contains(c) ==> !self.completed().contains(c) && self.is_issued(c),
            forall|c: Seq<JobDimension>| #[trigger]
                self.completed().contains(c) ==> self.is_issued(c),
            forall|c: Seq<JobDimension>| #[trigger]
                self.is_issued(c) ==> self.pending().dom().contains(c) || self.abandoned().contains(c)
                    || self.completed().contains(c),
            forall|c: Seq<JobDimension>|
                is_cell_of(c, self.spans()) && rank(c) >= self.position() ==> !(
                #[trigger] self.pending().dom().contains(c)) && !self.abandoned().contains(c)
                    && !self.completed().contains(c),
    {
    }

    /// A manager over the space spanned by `dimensions`, with nothing handed out yet.
    pub fn new(dimensions: &Vec<usize>) -> (r: Result<Self, Error>)
        ensures
            !valid_spans(dimensions@) ==> r == Err::<Self, Error>(Error::ZeroSizedDimension),
            valid_spans(dimensions@) ==> (r matches Ok(m) && m.wf() && m.spans() == dimensions@
                && m.position() == 0 && m.pending().dom().is_empty() && m.abandoned().is_empty()
                && m.completed().is_empty() && forall|c: Seq<JobDimension>|
                #![trigger m.issue_count(c)]
                m.issue_count(c) == 0 && m.abandon_count(c) == 0),
    {
        let stack = match JobStack::new(dimensions) {
            Ok(s) => s,
            Err(e) => {
                return Err(e);
            },
        };
        let m = JobManager {
            stack,
            pending: Vec::new(),
            abandoned: Vec::new(),
            completed: Ghost(Set::empty()),
            issued: Ghost(Map::empty()),
            returned: Ghost(Map::empty()),
        };
        assert(m.pending().dom() =~= Set::<Seq<JobDimension>>::empty());
        assert(m.abandoned() =~= Set::<Seq<JobDimension>>::empty());
        proof {
            m.stack.lemma_wf();
            assert forall|c: Seq<JobDimension>| !m.is_issued(c) by {
                if is_cell_of(c, m.spans()) {
                    assert(cursor_shape(c));
                    lemma_rank_bounds(c);
                }
            }
            assert(m.completed() =~= Set::<Seq<JobDimension>>::empty());
            assert(m.wf());
        }
        Ok(m)
    }

    fn set_pending(&mut self, job: &Job, at: SystemTime)
        requires
            keys_distinct(old(self).pending@),
            !old(self).pending().dom().contains(job@),
        ensures
            keys_distinct(final(self).pending@),
            final(self).pending() == old(self).pending().insert(job@, at),
            final(self).stack == old(self).stack,
            final(self).abandoned == old(self).abandoned,
            final(self).completed == old(self).completed,
            final(self).issued == old(self).issued,
            final(self).returned == old(self).returned,
    {
        let e = (job.clone(), at);
        proof {
            lemma_entries_push(self.pending@, e);
        }
        self.pending.push(e);
    }

    /// A copy of the pending entries: each pending job with its issue time.
    pub fn jobs_pending(&self) -> (r: Vec<(Job, SystemTime)>)
        requires
            self.wf(),
        ensures
            keys_distinct(r@),
            entries_map(r@) == self.pending(),
    {
        let mut r: Vec<(Job, SystemTime)> = Vec::with_capacity(self.pending.len());
        let mut k: usize = 0;
        while k < self.pending.len()
            invariant
                k <= self.pending.len(),
                r.len() == k,
                forall|j: int| 0 <= j < k ==> (#[trigger] r@[j]).0@ == self.pending@[j].0@ && r@[j].1 == self.pending@[j].1,
            decreases self.pending.len() - k,
        {
            let e = (self.pending[k].0.clone(), self.pending[k].1);
            r.push(e);
            k = k + 1;
        }
        assert(keys_distinct(r@)) by {
            assert forall|i: int, j: int|
                0 <= i < r.len() && 0 <= j < r.len() && i != j implies (#[trigger] r@[i]).0@ != (
            #[trigger] r@[j]).0@ by {
                assert(self.pending@[i].0@ != self.pending@[j].0@);
            }
        }
        assert forall|c: Seq<JobDimension>| #[trigger] entries_map(r@).dom().contains(c) <==> self.pending().dom().contains(c) by {
            if entries_map(r@).dom().contains(c) {
                let i = choose|i: int| 0 <= i < r.len() && (#[trigger] r@[i]).0@ == c;
                assert(self.pending@[i].0@ == c);
            }
            if self.pending().dom().contains(c) {
                let i = choose|i: int| 0 <= i < self.pending.len() && (#[trigger] self.pending@[i]).0@ == c;
                assert(r@[i].0@ == c);
            }
        }
        assert forall|c: Seq<JobDimension>| #[trigger] entries_map(r@).dom().contains(c) implies entries_map(r@)[c] == self.pending()[c] by {
            let i = choose|i: int| 0 <= i < r.len() && (#[trigger] r@[i]).0@ == c;
            lemma_entries_at(r@, i);
            lemma_entries_at(self.pending@, i);
        }
        assert(entries_map(r@) =~= self.pending());
        r
    }

    /// A copy of the abandoned jobs.
    pub fn jobs_abandonded(&self) -> (r: Vec<Job>)
        requires
            self.wf(),
        ensures
            jobs_distinct(r@),
            jobs_set(r@) == self.abandoned(),
    {
        let mut r: Vec<Job> = Vec::with_capacity(self.abandoned.len());
        let mut k: usize = 0;
        while k < self.abandoned.len()
            invariant
                k <= self.abandoned.len(),
                r.len() == k,
                forall|j: int| 0 <= j < k ==> (#[trigger] r@[j])@ == self.abandoned@[j]@,
            decreases self.abandoned.len() - k,
        {
            r.push(self.abandoned[k].clone());
            k = k + 1;
        }
        assert(jobs_distinct(r@)) by {
            assert forall|i: int, j: int|
                0 <= i < r.len() && 0 <= j < r.len() && i != j implies (#[trigger] r@[i])@ != (
            #[trigger] r@[j])@ by {
                assert(self.abandoned@[i]@ != self.abandoned@[j]@);
            }
        }
        assert forall|c: Seq<JobDimension>| #[trigger] jobs_set(r@).contains(c) <==> self.abandoned().contains(c) by {
            if jobs_set(r@).contains(c) {
                let i = choose|i: int| 0 <= i < r.len() && (#[trigger] r@[i])@ == c;
                assert(self.abandoned@[i]@ == c);
            }
            if self.abandoned().contains(c) {
                let i = choose|i: int| 0 <= i < self.abandoned.len() && (#[trigger] self.abandoned@[i])@ == c;
                assert(r@[i]@ == c);
            }
        }
        assert(jobs_set(r@) =~= self.abandoned());
        r
    }

    /// Reads a URI (`i0/i1/...`) into a job of this manager's space.
    pub fn from_uri(&self, uri: String) -> (r: Result<Job, Error>)
        ensures
            job_result(r) == uri_parse(uri@, self.spans()),
    {
        let v = chars_of(uri.as_str());
        assert(v@.subrange(0, v.len() as int) =~= v@);
        let parts = split_ranges(&v, 0, v.len(), '/');
        let ghost pieces = split_on(v@, '/');
        let mut index: Vec<usize> = Vec::with_capacity(self.stack.order());
        let mut k: usize = 0;
        while k < parts.len()
            invariant
                parts.len() == pieces.len(),
                pieces == split_on(v@, '/'),
                v@ == uri@,
                forall|j: int|
                    0 <= j < parts.len() ==> (#[trigger] parts[j]).0 <= parts[j].1 <= v.len()
                        && v@.subrange(parts[j].0 as int, parts[j].1 as int) == pieces[j],
                k <= parts.len(),
                index.len() == k,
                forall|j: int|
                    0 <= j < k ==> parse_decimal(#[trigger] pieces[j]) == Some(index@[j]),
            decreases parts.len() - k,
        {
            let (lo, hi) = parts[k];
            assert(v@.subrange(lo as int, hi as int) == pieces[k as int]);
            match parse_decimal_range(&v, lo, hi) {
                Some(value) => {
                    index.push(value);
                },
                None => {
                    return Err(Error::UnexpectedString);
                },
            }
            k = k + 1;
        }
        assert(index@ =~= Seq::new(pieces.len(), |k: int| parse_decimal(pieces[k])->0));
        let spans = self.stack.top.dimensions();
        Job::new(&index, &spans)
    }

    /// Position of `job` among the pending entries.
    fn find_pending(&self, job: &Job) -> (r: Option<usize>)
        requires
            keys_distinct(self.pending@),
        ensures
            r matches Some(i) ==> i < self.pending.len() && self.pending@[i as int].0@ == job@,
            r is None ==> !self.pending().dom().contains(job@),
    {
        let mut k: usize = 0;
        while k < self.pending.len()
            invariant
                k <= self.pending.len(),
                forall|j: int| 0 <= j < k ==> (#[trigger] self.pending@[j]).0@ != job@,
            decreases self.pending.len() - k,
        {
            if self.pending[k].0 == *job {
                return Some(k);
            }
            k = k + 1;
        }
        None
    }

    /// Position of `job` among the abandoned jobs.
    fn find_abandoned(&self, job: &Job) -> (r: Option<usize>)
        requires
            jobs_distinct(self.abandoned@),
        ensures
            r matches Some(i) ==> i < self.abandoned.len() && self.abandoned@[i as int]@ == job@,
            r is None ==> !self.abandoned().contains(job@),
    {
        let mut k: usize = 0;
        while k < self.abandoned.len()
            invariant
                k <= self.abandoned.len(),
                forall|j: int| 0 <= j < k ==> (#[trigger] self.abandoned@[j])@ != job@,
            decreases self.abandoned.len() - k,
        {
            if self.abandoned[k] == *job {
                return Some(k);
            }
            k = k + 1;
        }
        None
    }

    /// Hands out the next job, recording `at` as its issue time: an
    /// abandoned job if there is one, else the next job of the stack, else none.
    pub fn pop_at(&mut self, at: SystemTime) -> (r: Option<Job>)
        requires
            old(self).wf(),
        ensures
            final(self).wf(),
            pop_post(*old(self), *final(self), r, at),
    {
        proof {
            self.stack.lemma_wf();
        }
        if self.abandoned.len() > 0 {
            let ghost s = self.abandoned@;
            let ghost last = (s.len() - 1) as int;
            assert(s.remove(last) =~= s.drop_last());
            proof {
                lemma_jobs_remove(s, last);
            }
            let job = match self.abandoned.pop() {
                Some(j) => j,
                None => {
                    return None;
                },
            };
            assert(old(self).abandoned().contains(job@)) by {
                assert(s[last] == job);
            }
            assert(self.pending() == old(self).pending());
            assert(!old(self).pending().dom().contains(job@));
            self.set_pending(&job, at);
            let ghost c = job@;
            self.issued = Ghost(self.issued@.insert(c, count(self.issued@, c) + 1));
            proof {
                assert(!old(self).abandoned().is_empty());
                assert forall|x: Seq<JobDimension>| #[trigger]
                    self.issue_count(x) == old(self).issue_count(x) + if x == c { 1nat } else { 0nat } by {}
                lemma_wf_reissue(*old(self), *self, c, at);
            }
            Some(job)
        } else if !self.stack.is_empty() {
            assert(old(self).abandoned() =~= Set::<Seq<JobDimension>>::empty());
            let ghost pos = self.position();
            let job = match self.stack.next() {
                Some(j) => j,
                None => {
                    return None;
                },
            };
            let ghost c = job@;
            proof {
                lemma_unrank(old(self).spans(), pos);
                assert(!old(self).is_issued(c));
            }
            assert(self.pending() == old(self).pending());
            assert(!old(self).pending().dom().contains(c));
            self.set_pending(&job, at);
            self.issued = Ghost(self.issued@.insert(c, count(self.issued@, c) + 1));
            proof {
                assert forall|x: Seq<JobDimension>| #[trigger]
                    self.issue_count(x) == old(self).issue_count(x) + if x == c { 1nat } else { 0nat } by {}
                assert forall|x: Seq<JobDimension>| #[trigger]
                    self.is_issued(x) <==> old(self).is_issued(x) || x == c by {
                    if is_cell_of(x, self.spans()) {
                        assert(cursor_shape(x));
                        lemma_unrank_rank(x);
                    }
                }
                lemma_wf_issue(*old(self), *self, c, at);
            }
            Some(job)
        } else {
            assert(old(self).abandoned() =~= Set::<Seq<JobDimension>>::empty());
            None
        }
    }

    /// Hands out the next job, stamped with the current time (see `pop_at`).
    pub fn pop(&mut self) -> (r: Option<Job>)
        requires
            old(self).wf(),
        ensures
            final(self).wf(),
            exists|at: SystemTime| pop_post(*old(self), *final(self), r, at),
    {
        let at = now();
        self.pop_at(at)
    }

    /// Marks the job named by `uri` complete, taking it out of the pending
    /// or the abandoned jobs.
    pub fn complete(&mut self, uri: String) -> (r: Result<Job, Error>)
        requires
            old(self).wf(),
        ensures
            final(self).wf(),
            complete_post(*old(self), *final(self), uri@, r),
    {
        let ghost u = uri@;
        let job = match self.from_uri(uri) {
            Ok(j) => j,
            Err(e) => {
                return Err(e);
            },
        };
        let ghost c = job@;
        match self.find_pending(&job) {
            Some(i) => {
                proof {
                    lemma_entries_remove(self.pending@, i as int);
                }
                self.pending.remove(i);
                self.completed = Ghost(self.completed@.insert(c));
                proof {
                    lemma_wf_complete(*old(self), *self, c);
                }
                return Ok(job);
            },
            None => {},
        }
        match self.find_abandoned(&job) {
            Some(i) => {
                proof {
                    lemma_jobs_remove(self.abandoned@, i as int);
                }
                self.abandoned.remove(i);
                self.completed = Ghost(self.completed@.insert(c));
                proof {
                    lemma_wf_complete(*old(self), *self, c);
                }
                Ok(job)
            },
            None => Err(Error::JobNotFound),
        }
    }

    /// Returns a pending job to the pool; `pop` hands it out again before
    /// taking anything new from the stack.
    pub fn abandon(&mut self, job: &Job)
        requires
            old(self).wf(),
            old(self).pending().dom().contains(job@),
            !old(self).abandoned().contains(job@),
        ensures
            final(self).wf(),
            final(self).spans() == old(self).spans(),
            final(self).position() == old(self).position(),
            final(self).completed() == old(self).completed(),
            final(self).pending() == old(self).pending().remove(job@),
            final(self).abandoned() == old(self).abandoned().insert(job@),
            forall|c: Seq<JobDimension>| #[trigger]
                final(self).issue_count(c) == old(self).issue_count(c),
            forall|c: Seq<JobDimension>| #[trigger]
                final(self).abandon_count(c) == old(self).abandon_count(c) + if c == job@ {
                    1nat
                } else {
                    0nat
                },
    {
        let ghost c = job@;
        let i = match self.find_pending(job) {
            Some(i) => i,
            None => {
                return;
            },
        };
        let copy = job.clone();
        proof {
            lemma_entries_remove(self.pending@, i as int);
            lemma_jobs_push(self.abandoned@, copy);
        }
        self.pending.remove(i);
        self.abandoned.push(copy);
        self.returned = Ghost(self.returned@.insert(c, count(self.returned@, c) + 1));
        proof {
            lemma_wf_abandon(*old(self), *self, c);
        }
    }

    /// True once nothing is left: the stack is exhausted and no job is
    /// pending or abandoned.
    pub fn is_finished(&self) -> (r: bool)
        requires
            self.wf(),
        ensures
            r == self.drained(),
    {
        if self.pending.len() > 0 {
            proof {
                lemma_entries_at_zero(self.pending@);
            }
        } else {
            assert(self.pending().dom() =~= Set::<Seq<JobDimension>>::empty());
        }
        if self.abandoned.len() > 0 {
            assert(self.abandoned().contains(self.abandoned@[0]@));
        } else {
            assert(self.abandoned() =~= Set::<Seq<JobDimension>>::empty());
        }
        self.stack.is_empty() && self.pending.len() == 0 && self.abandoned.len() == 0
    }
}

pub proof fn lemma_entries_at_zero(s: Seq<(Job, SystemTime)>)
    requires
        s.len() > 0,
    ensures
        entries_map(s).dom().contains(s[0].0@),
{
    let w: int = 0;
    assert(0 <= w < s.len() && s[w].0@ == s[0].0@);
}

/// Well-formedness after a job `c` moves from abandoned to pending.
proof fn lemma_wf_reissue(o: JobManager, n: JobManager, c: Seq<JobDimension>, at: SystemTime)
    requires
        o.wf(),
        o.abandoned().contains(c),
        n.stack == o.stack,
        keys_distinct(n.pending@),
        jobs_distinct(n.abandoned@),
        n.pending() == o.pending().insert(c, at),
        n.abandoned() == o.abandoned().remove(c),
        n.completed@ == o.completed@,
        n.issued@ == o.issued@.insert(c, count(o.issued@, c) + 1),
        n.returned@ == o.returned@,
    ensures
        n.wf(),
{
    assert(o.is_issued(c));
    assert forall|x: Seq<JobDimension>| #[trigger] n.pending().dom().contains(x) implies n.is_issued(x)
        && !n.abandoned().contains(x) && !n.completed().contains(x) && n.issue_count(x)
        == n.abandon_count(x) + 1 by {
        if x != c {
            assert(o.pending().dom().contains(x));
        }
    }
    assert forall|x: Seq<JobDimension>| #[trigger] n.abandoned().contains(x) implies n.is_issued(x)
        && !n.completed().contains(x) && n.issue_count(x) == n.abandon_count(x) by {
        assert(o.abandoned().contains(x));
    }
    assert forall|x: Seq<JobDimension>| #[trigger] n.completed().contains(x) implies n.is_issued(x) by {
        assert(o.completed().contains(x));
    }
    assert forall|x: Seq<JobDimension>| #[trigger] n.is_issued(x) implies n.pending().dom().contains(x)
        || n.abandoned().contains(x) || n.completed().contains(x) by {
        assert(o.is_issued(x));
    }
    assert forall|x: Seq<JobDimension>| !n.is_issued(x) implies #[trigger] n.issue_count(x) == 0 by {
        assert(o.issue_count(x) == 0);
    }
    assert forall|x: Seq<JobDimension>| #[trigger] n.abandon_count(x) <= n.issue_count(x)
        <= n.abandon_count(x) + 1 by {
        assert(o.abandon_count(x) <= o.issue_count(x) <= o.abandon_count(x) + 1);
    }
}

/// Well-formedness after the stack emits the job `c`.
proof fn lemma_wf_issue(o: JobManager, n: JobManager, c: Seq<JobDimension>, at: SystemTime)
    requires
        o.wf(),
        n.stack.wf(),
        n.spans() == o.spans(),
        !o.is_issued(c),
        forall|x: Seq<JobDimension>| #[trigger] n.is_issued(x) <==> o.is_issued(x) || x == c,
        keys_distinct(n.pending@),
        n.abandoned == o.abandoned,
        n.pending() == o.pending().insert(c, at),
        n.completed@ == o.completed@,
        n.issued@ == o.issued@.insert(c, count(o.issued@, c) + 1),
        n.returned@ == o.returned@,
    ensures
        n.wf(),
{
    assert(n.is_issued(c));
    assert(o.issue_count(c) == 0);
    assert(o.abandon_count(c) <= o.issue_count(c));
    assert(n.issue_count(c) == 1);
    assert(n.abandon_count(c) == 0);
    assert(!o.pending().dom().contains(c));
    assert(!o.abandoned().contains(c));
    assert(!o.completed().contains(c));
    assert(n.abandoned() == o.abandoned());
    assert forall|x: Seq<JobDimension>| #[trigger] n.pending().dom().contains(x) implies n.is_issued(x)
        && !n.abandoned().contains(x) && !n.completed().contains(x) && n.issue_count(x)
        == n.abandon_count(x) + 1 by {
        if x != c {
            assert(o.pending().dom().contains(x));
        }
    }
    assert forall|x: Seq<JobDimension>| #[trigger] n.abandoned().contains(x) implies n.is_issued(x)
        && !n.completed().contains(x) && n.issue_count(x) == n.abandon_count(x) by {
        assert(o.abandoned().contains(x));
    }
    assert forall|x: Seq<JobDimension>| #[trigger] n.completed().contains(x) implies n.is_issued(x) by {
        assert(o.completed().contains(x));
    }
    assert forall|x: Seq<JobDimension>| #[trigger] n.is_issued(x) implies n.pending().dom().contains(x)
        || n.abandoned().contains(x) || n.completed().contains(x) by {
        if x != c {
            assert(o.is_issued(x));
        }
    }
    assert forall|x: Seq<JobDimension>| !n.is_issued(x) implies #[trigger] n.issue_count(x) == 0 by {
        assert(x != c);
        assert(!o.is_issued(x));
        assert(o.issue_count(x) == 0);
    }
    assert forall|x: Seq<JobDimension>| #[trigger] n.abandon_count(x) <= n.issue_count(x)
        <= n.abandon_count(x) + 1 by {
        assert(o.abandon_count(x) <= o.issue_count(x) <= o.abandon_count(x) + 1);
    }
}

/// Well-formedness after the job `c` is completed, from pending or from abandoned.
proof fn lemma_wf_complete(o: JobManager, n: JobManager, c: Seq<JobDimension>)
    requires
        o.wf(),
        o.pending().dom().contains(c) || o.abandoned().contains(c),
        n.stack == o.stack,
        keys_distinct(n.pending@),
        jobs_distinct(n.abandoned@),
        o.pending().dom().contains(c) ==> n.pending() == o.pending().remove(c) && n.abandoned()
            == o.abandoned(),
        !o.pending().dom().contains(c) ==> n.pending() == o.pending() && n.abandoned()
            == o.abandoned().remove(c),
        n.completed@ == o.completed@.insert(c),
        n.issued@ == o.issued@,
        n.returned@ == o.returned@,
    ensures
        n.wf(),
{
    assert(o.is_issued(c));
    assert forall|x: Seq<JobDimension>| #[trigger] n.pending().dom().contains(x) implies n.is_issued(x)
        && !n.abandoned().contains(x) && !n.completed().contains(x) && n.issue_count(x)
        == n.abandon_count(x) + 1 by {
        assert(o.pending().dom().contains(x));
    }
    assert forall|x: Seq<JobDimension>| #[trigger] n.abandoned().contains(x) implies n.is_issued(x)
        && !n.completed().contains(x) && n.issue_count(x) == n.abandon_count(x) by {
        assert(o.abandoned().contains(x));
    }
    assert forall|x: Seq<JobDimension>| #[trigger] n.completed().contains(x) implies n.is_issued(x) by {
        if x != c {
            assert(o.completed().contains(x));
        }
    }
    assert forall|x: Seq<JobDimension>| #[trigger] n.is_issued(x) implies n.pending().dom().contains(x)
        || n.abandoned().contains(x) || n.completed().contains(x) by {
        assert(o.is_issued(x));
        if o.pending().dom().contains(x) {
        }
    }
    assert forall|x: Seq<JobDimension>| !n.is_issued(x) implies #[trigger] n.issue_count(x) == 0 by {
        assert(o.issue_count(x) == 0);
    }
    assert forall|x: Seq<JobDimension>| #[trigger] n.abandon_count(x) <= n.issue_count(x)
        <= n.abandon_count(x) + 1 by {
        assert(o.abandon_count(x) <= o.issue_count(x) <= o.abandon_count(x) + 1);
    }
}

/// Well-formedness after the pending job `c` is abandoned.
proof fn lemma_wf_abandon(o: JobManager, n: JobManager, c: Seq<JobDimension>)
    requires
        o.wf(),
        o.pending().dom().contains(c),
        n.stack == o.stack,
        keys_distinct(n.pending@),
        jobs_distinct(n.abandoned@),
        n.pending() == o.pending().remove(c),
        n.abandoned() == o.abandoned().insert(c),
        n.completed@ == o.completed@,
        n.issued@ == o.issued@,
        n.returned@ == o.returned@.insert(c, count(o.returned@, c) + 1),
    ensures
        n.wf(),
{
    assert(o.is_issued(c));
    assert(o.issue_count(c) == o.abandon_count(c) + 1);
    assert forall|x: Seq<JobDimension>| #[trigger] n.pending().dom().contains(x) implies n.is_issued(x)
        && !n.abandoned().contains(x) && !n.completed().contains(x) && n.issue_count(x)
        == n.abandon_count(x) + 1 by {
        assert(o.pending().dom().contains(x));
    }
    assert forall|x: Seq<JobDimension>| #[trigger] n.abandoned().contains(x) implies n.is_issued(x)
        && !n.completed().contains(x) && n.issue_count(x) == n.abandon_count(x) by {
        if x != c {
            assert(o.abandoned().contains(x));
        }
    }
    assert forall|x: Seq<JobDimension>| #[trigger] n.completed().contains(x) implies n.is_issued(x) by {
        assert(o.completed().contains(x));
    }
    assert forall|x: Seq<JobDimension>| #[trigger] n.is_issued(x) implies n.pending().dom().contains(x)
        || n.abandoned().contains(x) || n.completed().contains(x) by {
        assert(o.is_issued(x));
    }
    assert forall|x: Seq<JobDimension>| !n.is_issued(x) implies #[trigger] n.issue_count(x) == 0 by {
        assert(o.issue_count(x) == 0);
    }
    assert forall|x: Seq<JobDimension>| #[trigger] n.abandon_count(x) <= n.issue_count(x)
        <= n.abandon_count(x) + 1 by {
        assert(o.abandon_count(x) <= o.issue_count(x) <= o.abandon_count(x) + 1);
    }
}

/// What `pop_at(at)` does, from manager `m` to manager `n`, returning `r`.
pub open spec fn pop_post(m: JobManager, n: JobManager, r: Option<Job>, at: SystemTime) -> bool {
    &&& n.spans() == m.spans()
    &&& n.completed() == m.completed()
    &&& forall|c: Seq<JobDimension>| #[trigger] n.abandon_count(c) == m.abandon_count(c)
    &&& forall|c: Seq<JobDimension>| #[trigger]
        n.issue_count(c) == m.issue_count(c) + if r is Some && r->0@ == c {
            1nat
        } else {
            0nat
        }
    &&& if !m.abandoned().is_empty() {
        &&& r is Some
        &&& m.abandoned().contains(r->0@)
        &&& n.abandoned() == m.abandoned().remove(r->0@)
        &&& n.pending() == m.pending().insert(r->0@, at)
        &&& n.position() == m.position()
    } else if m.position() < total(m.spans()) {
        &&& r is Some
        &&& r->0@ == unrank(m.spans(), m.position())
        &&& n.abandoned() == m.abandoned()
        &&& n.pending() == m.pending().insert(r->0@, at)
        &&& n.position() == m.position() + 1
    } else {
        &&& r is None
        &&& n.abandoned() == m.abandoned()
        &&& n.pending() == m.pending()
        &&& n.position() == m.position()
    }
}

/// What `complete(uri)` does, from manager `m` to manager `n`, returning `r`:
/// a URI that does not name a cell of the space gives its parse error; a
/// pending or abandoned job is moved to the completed ones and returned;
/// any other job gives `JobNotFound`. Errors change nothing.
pub open spec fn complete_post(
    m: JobManager,
    n: JobManager,
    uri: Seq<char>,
    r: Result<Job, Error>,
) -> bool {
    &&& n.spans() == m.spans()
    &&& n.position() == m.position()
    &&& forall|c: Seq<JobDimension>| #[trigger] n.issue_count(c) == m.issue_count(c)
    &&& forall|c: Seq<JobDimension>| #[trigger] n.abandon_count(c) == m.abandon_count(c)
    &&& match uri_parse(uri, m.spans()) {
        Err(e) => {
            &&& r == Err::<Job, Error>(e)
            &&& n.pending() == m.pending()
            &&& n.abandoned() == m.abandoned()
            &&& n.completed() == m.completed()
        },
        Ok(c) => if m.pending().dom().contains(c) {
            &&& r is Ok
            &&& r->Ok_0@ == c
            &&& n.pending() == m.pending().remove(c)
            &&& n.abandoned() == m.abandoned()
            &&& n.completed() == m.completed().insert(c)
        } else if m.abandoned().contains(c) {
            &&& r is Ok
            &&& r->Ok_0@ == c
            &&& n.pending() == m.pending()
            &&& n.abandoned() == m.abandoned().remove(c)
            &&& n.completed() == m.completed().insert(c)
        } else {
            &&& r == Err::<Job, Error>(Error::JobNotFound)
            &&& n.pending() == m.pending()
            &&& n.abandoned() == m.abandoned()
            &&& n.completed() == m.completed()
        },
    }
}

/// For a dimension with a job left, both bounds lie in `[0, 1]` with the
/// lower one below the upper one, so their midpoint does too; at the last
/// index the upper bound is exactly 1.
pub proof fn lemma_bounds_in_unit(d: JobDimension)
    requires
        d.index < d.span,
    ensures
        ({
            let ((ln, ld), (un, ud)) = bounds_of(d);
            &&& ld > 0 && ud > 0
            &&& 0 <= ln <= ld
            &&& 0 <= un <= ud
            &&& ln * ud <= un * ld
            &&& d.index + 1 == d.span ==> un == ud
        }),
{
    let ((ln, ld), (un, ud)) = bounds_of(d);
    if d.index + 1 == d.span {
        assert(ln * 1 <= 1 * ld);
    } else {
        assert(ln * ud <= un * ld) by (nonlinear_arith)
            requires
                ln == d.index,
                ld == d.span,
                ud == d.span,
                un == d.index + 1,
        ;
    }
}

/// A job's URI reads back as the same job: for every cell `c` of a space,
/// reading `uri_of(c)` against that space gives `c`.
pub proof fn lemma_uri_round_trip(c: Seq<JobDimension>, spans: Seq<usize>)
    requires
        valid_spans(spans),
        is_cell_of(c, spans),
    ensures
        uri_parse(uri_of(c), spans) == Ok::<Seq<JobDimension>, Error>(c),
{
    let texts = index_texts(c);
    assert forall|k: int| 0 <= k < texts.len() implies !(#[trigger] texts[k]).contains('/') by {
        crate::text::lemma_decimal(c[k].index as nat);
        if texts[k].contains('/') {
            let i = choose|i: int| 0 <= i < texts[k].len() && texts[k][i] == '/';
            assert(crate::text::is_digit(texts[k][i]));
        }
    }
    crate::text::lemma_split_join(texts, '/');
    let pieces = split_on(uri_of(c), '/');
    assert(pieces == texts);
    assert forall|k: int| 0 <= k < pieces.len() implies parse_decimal(#[trigger] pieces[k]) == Some(
        c[k].index,
    ) by {
        crate::text::lemma_parse_decimal(c[k].index);
    }
    let indices = Seq::new(pieces.len(), |k: int| parse_decimal(pieces[k])->0);
    assert forall|k: int| 0 <= k < indices.len() implies indices[k] < spans[k] by {
        assert(spans_of(c)[k] == c[k].span);
    }
    assert forall|k: int| 0 <= k < c.len() implies (JobDimension { index: indices[k], span: spans[k] })
        == #[trigger] c[k] by {
        assert(spans_of(c)[k] == c[k].span);
    }
    assert(job_from(indices, spans)->Ok_0 =~= c);
}

/// The body line of one dimension, without the LF that ends it.
pub open spec fn body_line(x: JobDimension) -> Seq<char> {
    dimension_text(x).push('\r')
}

proof fn lemma_no_newline_in_line(x: JobDimension)
    ensures
        !body_line(x).contains('\n'),
        !decimal(x.index as nat).contains('/'),
        !decimal(x.span as nat).contains('/'),
{
    crate::text::lemma_decimal(x.index as nat);
    crate::text::lemma_decimal(x.span as nat);
    let l = body_line(x);
    let a = decimal(x.index as nat);
    let b = decimal(x.span as nat);
    if l.contains('\n') {
        let i = choose|i: int| 0 <= i < l.len() && l[i] == '\n';
        if i < a.len() {
            assert(l[i] == a[i]);
            assert(crate::text::is_digit(a[i]));
        } else if i > a.len() && i < a.len() + 1 + b.len() {
            assert(l[i] == b[i - a.len() - 1]);
            assert(crate::text::is_digit(b[i - a.len() - 1]));
        }
    }
    if a.contains('/') {
        let i = choose|i: int| 0 <= i < a.len() && a[i] == '/';
        assert(crate::text::is_digit(a[i]));
    }
    if b.contains('/') {
        let i = choose|i: int| 0 <= i < b.len() && b[i] == '/';
        assert(crate::text::is_digit(b[i]));
    }
}

/// The lines of a body encoding: one per dimension, then the empty text after the last LF.
proof fn lemma_body_lines(d: Seq<JobDimension>)
    ensures
        split_on(body_of(d), '\n') == Seq::new(d.len(), |k: int| body_line(d[k])).push(
            Seq::empty(),
        ),
    decreases d.len(),
{
    let lines = Seq::new(d.len(), |k: int| body_line(d[k]));
    if d.len() == 0 {
        assert(split_on(body_of(d), '\n') =~= lines.push(Seq::empty()));
    } else {
        let e = d.drop_last();
        lemma_body_lines(e);
        let t = body_line(d.last());
        lemma_no_newline_in_line(d.last());
        let prev = body_of(e);
        crate::text::lemma_split_on_extend(prev, t, '\n');
        let le = Seq::new(e.len(), |k: int| body_line(e[k]));
        let sp = split_on(prev, '\n');
        assert(sp == le.push(Seq::empty()));
        assert(Seq::<char>::empty() + t =~= t);
        assert(split_on(prev + t, '\n') =~= le.push(t));
        let whole = body_of(d);
        assert(whole =~= (prev + t).push('\n'));
        assert(whole.drop_last() =~= prev + t);
        assert(le.push(t) =~= lines);
        assert(split_on(whole, '\n') =~= lines.push(Seq::empty()));
    }
}

/// The body encoding of a cell reads back as the same cell.
pub proof fn lemma_body_round_trip(c: Seq<JobDimension>, spans: Seq<usize>)
    requires
        valid_spans(spans),
        is_cell_of(c, spans),
    ensures
        body_parse(body_of(c)) == Ok::<Seq<JobDimension>, Error>(c),
{
    lemma_body_lines(c);
    let lines = split_on(body_of(c), '\n');
    let n = c.len();
    assert(lines.len() - 1 == n);
    assert(lines.last().len() == 0);
    assert forall|k: int| 0 <= k < n implies #[trigger] line_fields(lines[k]) == Some(
        (c[k].index, c[k].span),
    ) by {
        let x = c[k];
        assert(lines[k] == body_line(x));
        lemma_no_newline_in_line(x);
        let a = decimal(x.index as nat);
        let b = decimal(x.span as nat);
        assert(body_line(x).drop_last() =~= a.push('/') + b);
        crate::text::lemma_split_on_append(a, b, '/');
        crate::text::lemma_split_on_append(Seq::empty(), a, '/');
        crate::text::lemma_parse_decimal(x.index);
        crate::text::lemma_parse_decimal(x.span);
    }
    let indices = Seq::new(n as nat, |k: int| (line_fields(lines[k])->0).0);
    let sps = Seq::new(n as nat, |k: int| (line_fields(lines[k])->0).1);
    assert forall|k: int| 0 <= k < n implies indices[k] < sps[k] && (JobDimension {
        index: indices[k],
        span: sps[k],
    }) == #[trigger] c[k] by {
        assert(line_fields(lines[k]) == Some((c[k].index, c[k].span)));
    }
    assert(job_from(indices, sps)->Ok_0 =~= c);
}

/// A job handed out by `pop` is held by nobody else: it was not pending
/// before the call, it is pending after, and every job that was pending
/// before still is.
pub proof fn lemma_pop_exclusive(m: JobManager, n: JobManager, r: Option<Job>, at: SystemTime)
    requires
        m.wf(),
        pop_post(m, n, r, at),
        r is Some,
    ensures
        !m.pending().dom().contains(r->0@),
        n.pending().dom().contains(r->0@),
        forall|c: Seq<JobDimension>| #[trigger]
            m.pending().dom().contains(c) ==> n.pending().dom().contains(c),
{
    let c = r->0@;
    if m.abandoned().is_empty() {
        m.lemma_wf();
        lemma_unrank(m.spans(), m.position());
        assert(!m.is_issued(c));
    } else {
        assert(m.abandoned().contains(c));
    }
}

/// No cell is handed out more than once beyond the number of times it was abandoned.
pub proof fn lemma_issue_bound(m: JobManager, c: Seq<JobDimension>)
    requires
        m.wf(),
    ensures
        m.issue_count(c) <= m.abandon_count(c) + 1,
{
    assert(m.abandon_count(c) <= m.issue_count(c) <= m.abandon_count(c) + 1);
}

/// The manager has drained exactly when its stack is exhausted and every
/// cell of the space has been reported complete.
pub proof fn lemma_drained_iff_completed(m: JobManager)
    requires
        m.wf(),
    ensures
        m.drained() <==> (m.position() == total(m.spans()) && forall|c: Seq<JobDimension>|
            #[trigger] is_cell_of(c, m.spans()) ==> m.completed().contains(c)),
{
    m.lemma_wf();
    crate::space::lemma_enumeration_bijective(m.spans());
    if m.drained() {
        assert forall|c: Seq<JobDimension>| #[trigger] is_cell_of(c, m.spans()) implies m.completed().contains(
            c,
        ) by {
            assert(m.is_issued(c));
            assert(!m.pending().dom().contains(c));
            assert(!m.abandoned().contains(c));
        }
    }
    if m.position() == total(m.spans()) && forall|c: Seq<JobDimension>|
        #[trigger] is_cell_of(c, m.spans()) ==> m.completed().contains(c) {
        assert forall|c: Seq<JobDimension>| !m.pending().dom().contains(c) by {
            if m.pending().dom().contains(c) {
                assert(m.is_issued(c));
                assert(m.completed().contains(c));
            }
        }
        assert forall|c: Seq<JobDimension>| !m.abandoned().contains(c) by {
            if m.abandoned().contains(c) {
                assert(m.is_issued(c));
                assert(m.completed().contains(c));
            }
        }
        assert(m.pending().dom() =~= Set::<Seq<JobDimension>>::empty());
        assert(m.abandoned() =~= Set::<Seq<JobDimension>>::empty());
    }
}

/// Moves a cursor to the next row-major position: increments the last
/// index and carries into the preceding ones.
fn advance(d: &mut Vec<JobDimension>)
    requires
        cursor_shape(old(d)@),
        old(d)@[0].index < old(d)@[0].span,
    ensures
        cursor_shape(final(d)@),
        spans_of(final(d)@) == spans_of(old(d)@),
        rank(final(d)@) == rank(old(d)@) + 1,
{
    let ghost o = d@;
    let n: usize = d.len();
    let mut k: usize = n - 1;
    assert(o.take(n as int) =~= o);
    assert(spans_of(o.skip(n as int)) =~= Seq::<usize>::empty());
    loop
        invariant
            d.len() == n,
            n >= 1,
            k < n,
            o == old(d)@,
            cursor_shape(o),
            o[0].index < o[0].span,
            spans_of(d@) == spans_of(o),
            forall|j: int| 0 <= j <= k ==> #[trigger] d@[j] == o[j],
            forall|j: int| k < j < n ==> (#[trigger] d@[j]).index == 0,
            rank(o) + 1 == (rank(o.take(k + 1)) + 1) * total(spans_of(d@.skip(k + 1))),
        decreases k,
    {
        let x = d[k];
        assert(spans_of(d@)[k as int] == x.span);
        let ghost rest = d@.skip(k + 1);
        let ghost t = total(spans_of(rest));
        assert(o.take(k + 1).drop_last() =~= o.take(k as int));
        assert(rank(o.take(k + 1)) == rank(o.take(k as int)) * x.span + x.index);
        if x.index + 1 < x.span || k == 0 {
            d.set(k, JobDimension { index: x.index + 1, span: x.span });
            proof {
                assert(spans_of(d@) =~= spans_of(o));
                assert(d@.skip(k + 1) =~= rest);
                assert(d@ =~= d@.take(k + 1) + rest);
                lemma_rank_concat(d@.take(k + 1), rest);
                crate::space::lemma_rank_zero(rest);
                assert(d@.take(k + 1).drop_last() =~= o.take(k as int));
                assert(rank(d@.take(k + 1)) == rank(o.take(k + 1)) + 1);
                assert forall|j: int| 1 <= j < n implies #[trigger] d@[j].index < d@[j].span by {
                    assert(spans_of(d@)[j] == d@[j].span);
                    if j < k {
                        assert(d@[j] == o[j]);
                    }
                }
                if k > 0 {
                    assert(d@[0] == o[0]);
                }
                assert(cursor_shape(d@));
            }
            return;
        }
        d.set(k, JobDimension { index: 0, span: x.span });
        proof {
            let rk = rank(o.take(k as int));
            let s = x.span as int;
            assert(spans_of(d@) =~= spans_of(o));
            assert(spans_of(d@.skip(k as int)) =~= seq![x.span] + spans_of(rest)) by {
                assert(d@.skip(k + 1) =~= rest);
            }
            lemma_total_concat(seq![x.span], spans_of(rest));
            crate::space::lemma_total_single(seq![x.span]);
            assert((rk * s + (s - 1) + 1) * t == (rk + 1) * (s * t)) by (nonlinear_arith);
        }
        k = k - 1;
    }
}

} // verus!
