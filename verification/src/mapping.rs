//! One match: the markers with their positions, and the span of each
//! variable.

use vstd::prelude::*;

verus! {

/// The position that comes with the first entry of `markers` for the marker
/// `m`.
pub open spec fn pos_of(markers: Seq<(usize, usize)>, m: int) -> Option<usize>
    decreases markers.len(),
{
    if markers.len() == 0 {
        None
    } else {
        match pos_of(markers.drop_last(), m) {
            Some(p) => Some(p),
            None => if markers.last().0 == m {
                Some(markers.last().1)
            } else {
                None
            },
        }
    }
}

/// The span of variable `v`: where its opening marker `2 * v` and its
/// closing marker `2 * v + 1` stand, if both occur.
pub open spec fn span_of(markers: Seq<(usize, usize)>, v: int) -> Option<(usize, usize)> {
    match (pos_of(markers, 2 * v), pos_of(markers, 2 * v + 1)) {
        (Some(start), Some(end)) => Some((start, end)),
        _ => None,
    }
}

/// A match of the automaton on the text.
pub struct Mapping {
    markers: Vec<(usize, usize)>,
    starts: Vec<Option<usize>>,
    ends: Vec<Option<usize>>,
}

impl Mapping {
    /// The markers of the match, each with the byte offset at which it
    /// stands, in the order in which the enumeration met them: from the end
    /// of the text to its start.
    pub closed spec fn spec_markers(&self) -> Seq<(usize, usize)> {
        self.markers@
    }

    /// The number of variables.
    pub closed spec fn spec_num_vars(&self) -> nat {
        self.starts@.len()
    }

    /// The span recorded for variable `v`.
    pub closed spec fn spec_span(&self, v: int) -> Option<(usize, usize)> {
        match (self.starts@[v], self.ends@[v]) {
            (Some(start), Some(end)) => Some((start, end)),
            _ => None,
        }
    }

    /// The spans are those that the markers give.
    pub closed spec fn wf(&self) -> bool {
        &&& self.ends@.len() == self.starts@.len()
        &&& forall|v: int| 0 <= v < self.starts@.len() ==> self.starts@[v] == pos_of(self.markers@, 2 * v)
        &&& forall|v: int| 0 <= v < self.ends@.len() ==> self.ends@[v] == pos_of(self.markers@, 2 * v + 1)
    }

    /// The match with the given markers, for `num_vars` variables. Where a
    /// marker occurs more than once, its first entry counts.
    pub fn from_markers(markers: Vec<(usize, usize)>, num_vars: usize) -> (m: Mapping)
        ensures
            m.wf(),
            m.spec_markers() == markers@,
            m.spec_num_vars() == num_vars,
            forall|v: int| 0 <= v < num_vars ==> m.spec_span(v) == span_of(markers@, v),
    {
        let mut starts: Vec<Option<usize>> = Vec::new();
        let mut ends: Vec<Option<usize>> = Vec::new();
        let mut v: usize = 0;
        while v < num_vars
            invariant
                v <= num_vars,
                starts@.len() == v,
                ends@.len() == v,
                forall|k: int| 0 <= k < v ==> starts@[k] is None && ends@[k] is None,
            decreases num_vars - v,
        {
            starts.push(None);
            ends.push(None);
            v += 1;
        }
        let mut i: usize = 0;
        proof {
            assert(markers@.take(0) =~= Seq::<(usize, usize)>::empty());
        }
        while i < markers.len()
            invariant
                i <= markers@.len(),
                starts@.len() == num_vars,
                ends@.len() == num_vars,
                forall|k: int| 0 <= k < num_vars ==> starts@[k] == pos_of(markers@.take(i as int), 2 * k),
                forall|k: int| 0 <= k < num_vars ==> ends@[k] == pos_of(markers@.take(i as int), 2 * k + 1),
            decreases markers@.len() - i,
        {
            let (marker, pos) = markers[i];
            let var = marker / 2;
            let ghost before_starts = starts@;
            let ghost before_ends = ends@;
            if var < num_vars {
                if marker % 2 == 0 {
                    if starts[var].is_none() {
                        starts[var] = Some(pos);
                    }
                } else {
                    if ends[var].is_none() {
                        ends[var] = Some(pos);
                    }
                }
            }
            proof {
                let longer = markers@.take(i + 1);
                assert(longer.drop_last() =~= markers@.take(i as int));
                assert(longer.last() == (marker, pos));
                assert forall|k: int| 0 <= k < num_vars implies starts@[k] == pos_of(longer, 2 * k) by {
                    assert(before_starts[k] == pos_of(markers@.take(i as int), 2 * k));
                }
                assert forall|k: int| 0 <= k < num_vars implies ends@[k] == pos_of(longer, 2 * k + 1) by {
                    assert(before_ends[k] == pos_of(markers@.take(i as int), 2 * k + 1));
                }
            }
            i += 1;
        }
        proof {
            assert(markers@.take(markers@.len() as int) =~= markers@);
        }
        Mapping { markers, starts, ends }
    }

    /// The markers of the match with their byte offsets.
    pub fn get_markers(&self) -> (markers: &Vec<(usize, usize)>)
        ensures
            markers@ == self.spec_markers(),
    {
        &self.markers
    }

    /// The number of variables.
    pub fn num_vars(&self) -> (n: usize)
        ensures
            n == self.spec_num_vars(),
    {
        self.starts.len()
    }

    /// The byte offsets at which variable `var` opens and closes, or `None`
    /// where the match does not bind it or there is no such variable.
    pub fn get_span(&self, var: usize) -> (span: Option<(usize, usize)>)
        requires
            self.wf(),
        ensures
            span == if var < self.spec_num_vars() {
                span_of(self.spec_markers(), var as int)
            } else {
                None
            },
    {
        if var < self.starts.len() {
            match (self.starts[var], self.ends[var]) {
                (Some(start), Some(end)) => Some((start, end)),
                _ => None,
            }
        } else {
            None
        }
    }
}

} // verus!
