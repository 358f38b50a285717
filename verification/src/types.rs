use vstd::prelude::*;

verus! {

/// Identity of a task: its zero-based position in the sequence handed to
/// the dependency graph builder.
pub type TaskId = usize;

/// A deferred unit of work. The scheduler never runs it; it only decides
/// when running it would be safe. Callers implement this for whatever
/// payload they want executed once the task's turn comes.
pub trait Work {
    fn run(&self) -> Result<String, String>;
}

/// A schedulable task: an identity, a diagnostic name, the resources it
/// reads, the resources it writes, and the deferred work itself.
///
/// Resource identifiers are opaque tokens compared by exact equality of
/// their characters; there is no wildcarding or hierarchy.
#[derive(Clone)]
pub struct Task<W: Work> {
    pub id: TaskId,
    pub name: String,
    pub reads: Vec<String>,
    pub writes: Vec<String>,
    pub work: W,
}

/// Some resource identifier occurs in both sequences.
pub open spec fn resources_overlap(xs: Seq<String>, ys: Seq<String>) -> bool {
    exists|i: int, j: int| 0 <= i < xs.len() && 0 <= j < ys.len() && xs[i]@ == ys[j]@
}

impl<W: Work> Task<W> {
    /// Two tasks conflict when one reads a resource the other writes, or
    /// both write the same resource. Read-read overlaps never conflict.
    pub open spec fn spec_conflicts(self, other: Task<W>) -> bool {
        ||| resources_overlap(self.reads@, other.writes@)
        ||| resources_overlap(self.writes@, other.reads@)
        ||| resources_overlap(self.writes@, other.writes@)
    }

    /// Total conflict predicate over any two tasks; checks both read-vs-write
    /// directions and the write-vs-write case in one call.
    pub fn conflicts_with(&self, other: &Task<W>) -> (r: bool)
        ensures
            r == self.spec_conflicts(*other),
    {
        let mut i: usize = 0;
        while i < self.reads.len()
            invariant
                i <= self.reads@.len(),
                forall|k: int, j: int|
                    !(0 <= k < i && 0 <= j < other.writes@.len()
                        && self.reads@[k]@ == other.writes@[j]@),
            decreases self.reads@.len() - i,
        {
            if contains_resource(&other.writes, &self.reads[i]) {
                return true;
            }
            i += 1;
        }
        let mut w: usize = 0;
        while w < self.writes.len()
            invariant
                w <= self.writes@.len(),
                forall|k: int, j: int|
                    !(0 <= k < w && 0 <= j < other.reads@.len()
                        && self.writes@[k]@ == other.reads@[j]@),
                forall|k: int, j: int|
                    !(0 <= k < w && 0 <= j < other.writes@.len()
                        && self.writes@[k]@ == other.writes@[j]@),
            decreases self.writes@.len() - w,
        {
            if contains_resource(&other.reads, &self.writes[w]) {
                return true;
            }
            if contains_resource(&other.writes, &self.writes[w]) {
                return true;
            }
            w += 1;
        }
        false
    }
}

/// Linear scan for a resource identifier, compared by character content.
fn contains_resource(v: &Vec<String>, x: &String) -> (r: bool)
    ensures
        r == exists|j: int| 0 <= j < v@.len() && v@[j]@ == x@,
{
    let mut j: usize = 0;
    while j < v.len()
        invariant
            j <= v@.len(),
            forall|k: int| 0 <= k < j ==> v@[k]@ != x@,
        decreases v@.len() - j,
    {
        if v[j] == *x {
            return true;
        }
        j += 1;
    }
    false
}

/// Overlap is symmetric: the witness pair swaps.
pub proof fn lemma_overlap_symmetric(xs: Seq<String>, ys: Seq<String>)
    ensures
        resources_overlap(xs, ys) == resources_overlap(ys, xs),
{
    if resources_overlap(xs, ys) {
        let (i, j) = choose|i: int, j: int|
            0 <= i < xs.len() && 0 <= j < ys.len() && xs[i]@ == ys[j]@;
        assert(0 <= j < ys.len() && 0 <= i < xs.len() && ys[j]@ == xs[i]@);
    }
    if resources_overlap(ys, xs) {
        let (i, j) = choose|i: int, j: int|
            0 <= i < ys.len() && 0 <= j < xs.len() && ys[i]@ == xs[j]@;
        assert(0 <= j < xs.len() && 0 <= i < ys.len() && xs[j]@ == ys[i]@);
    }
}

/// The conflict relation is symmetric: `conflicts_with(a, b)` and
/// `conflicts_with(b, a)` always agree.
pub proof fn lemma_conflicts_symmetric<W: Work>(a: Task<W>, b: Task<W>)
    ensures
        a.spec_conflicts(b) == b.spec_conflicts(a),
{
    lemma_overlap_symmetric(a.reads@, b.writes@);
    lemma_overlap_symmetric(a.writes@, b.reads@);
    lemma_overlap_symmetric(a.writes@, b.writes@);
}

/// An overlap between parts lifts to an overlap between the concatenations.
proof fn lemma_overlap_in_concat(x1: Seq<String>, x2: Seq<String>, y1: Seq<String>, y2: Seq<String>)
    ensures
        resources_overlap(x1, y1) ==> resources_overlap(x1 + x2, y1 + y2),
        resources_overlap(x1, y2) ==> resources_overlap(x1 + x2, y1 + y2),
        resources_overlap(x2, y1) ==> resources_overlap(x1 + x2, y1 + y2),
        resources_overlap(x2, y2) ==> resources_overlap(x1 + x2, y1 + y2),
{
    if resources_overlap(x1, y1) {
        let (i, j) = choose|i: int, j: int|
            0 <= i < x1.len() && 0 <= j < y1.len() && x1[i]@ == y1[j]@;
        assert((x1 + x2)[i]@ == (y1 + y2)[j]@);
    }
    if resources_overlap(x1, y2) {
        let (i, j) = choose|i: int, j: int|
            0 <= i < x1.len() && 0 <= j < y2.len() && x1[i]@ == y2[j]@;
        assert((x1 + x2)[i]@ == (y1 + y2)[y1.len() + j]@);
    }
    if resources_overlap(x2, y1) {
        let (i, j) = choose|i: int, j: int|
            0 <= i < x2.len() && 0 <= j < y1.len() && x2[i]@ == y1[j]@;
        assert((x1 + x2)[x1.len() + i]@ == (y1 + y2)[j]@);
    }
    if resources_overlap(x2, y2) {
        let (i, j) = choose|i: int, j: int|
            0 <= i < x2.len() && 0 <= j < y2.len() && x2[i]@ == y2[j]@;
        assert((x1 + x2)[x1.len() + i]@ == (y1 + y2)[y1.len() + j]@);
    }
}

/// Tasks whose combined read and write footprints share no resource never
/// conflict, in either direction.
pub proof fn lemma_disjoint_tasks_never_conflict<W: Work>(a: Task<W>, b: Task<W>)
    requires
        !resources_overlap(a.reads@ + a.writes@, b.reads@ + b.writes@),
    ensures
        !a.spec_conflicts(b),
        !b.spec_conflicts(a),
{
    lemma_overlap_in_concat(a.reads@, a.writes@, b.reads@, b.writes@);
    lemma_conflicts_symmetric(a, b);
}

/// Two tasks writing a common resource always conflict, in either direction.
pub proof fn lemma_write_write_conflict<W: Work>(a: Task<W>, b: Task<W>)
    requires
        resources_overlap(a.writes@, b.writes@),
    ensures
        a.spec_conflicts(b),
        b.spec_conflicts(a),
{
    lemma_conflicts_symmetric(a, b);
}

/// A task reading a resource conflicts with any task writing it, whichever
/// of the two came first in the declaration order.
pub proof fn lemma_read_write_conflict<W: Work>(a: Task<W>, b: Task<W>)
    requires
        resources_overlap(a.reads@, b.writes@),
    ensures
        a.spec_conflicts(b),
        b.spec_conflicts(a),
{
    lemma_conflicts_symmetric(a, b);
}

} // verus!
