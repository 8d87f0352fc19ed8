use vstd::prelude::*;

verus! {

/// A filesystem path, modeled as the ordered sequence of its components.
/// The empty sequence stands for a path with no components (such a path has
/// no parent and never names a file).
pub struct ScanPath {
    pub segments: Vec<String>,
}

impl View for ScanPath {
    type V = Seq<Seq<char>>;

    open spec fn view(&self) -> Seq<Seq<char>> {
        self.segments.deep_view()
    }
}

impl DeepView for ScanPath {
    type V = Seq<Seq<char>>;

    open spec fn deep_view(&self) -> Seq<Seq<char>> {
        self.view()
    }
}

/// Joining one relative component onto a directory: the empty component
/// names the directory itself, any other component names a child of it.
pub open spec fn spec_join(root: Seq<Seq<char>>, seg: Seq<char>) -> Seq<Seq<char>> {
    if seg.len() == 0 {
        root
    } else {
        root.push(seg)
    }
}

/// `a` names the same directory as `b`, or an ancestor of it: the components
/// of `a` are a prefix of the components of `b`.
pub open spec fn is_prefix(a: Seq<Seq<char>>, b: Seq<Seq<char>>) -> bool {
    &&& a.len() <= b.len()
    &&& forall|i: int| 0 <= i < a.len() ==> a[i] == b[i]
}

impl ScanPath {
    pub fn new(segments: Vec<String>) -> (r: ScanPath)
        ensures
            r@ == segments.deep_view(),
    {
        ScanPath { segments }
    }

    /// A copy of this path with the same components.
    pub fn duplicate(&self) -> (r: ScanPath)
        ensures
            r@ == self@,
    {
        let mut out: Vec<String> = Vec::new();
        let mut i: usize = 0;
        while i < self.segments.len()
            invariant
                i <= self.segments.len(),
                out@.len() == i,
                forall|j: int| 0 <= j < i ==> out@[j]@ == self.segments@[j]@,
            decreases self.segments.len() - i,
        {
            out.push(self.segments[i].clone());
            i += 1;
        }
        let r = ScanPath { segments: out };
        proof {
            assert(r@ =~= self@);
        }
        r
    }

    /// The directory containing this path: all components but the last.
    /// A path with no components has no parent.
    pub fn parent(&self) -> (r: Option<ScanPath>)
        ensures
            match r {
                Some(p) => self@.len() >= 1 && p@ == self@.drop_last(),
                None => self@.len() == 0,
            },
    {
        if self.segments.len() == 0 {
            return None;
        }
        let mut out: Vec<String> = Vec::new();
        let mut i: usize = 0;
        while i < self.segments.len() - 1
            invariant
                self.segments.len() >= 1,
                i <= self.segments.len() - 1,
                out@.len() == i,
                forall|j: int| 0 <= j < i ==> out@[j]@ == self.segments@[j]@,
            decreases self.segments.len() - 1 - i,
        {
            out.push(self.segments[i].clone());
            i += 1;
        }
        let r = ScanPath { segments: out };
        proof {
            assert(r@ =~= self@.drop_last());
        }
        Some(r)
    }

    /// This path extended by one relative component; the empty component
    /// yields the path itself.
    pub fn join_segment(&self, seg: &String) -> (r: ScanPath)
        ensures
            r@ == spec_join(self@, seg@),
    {
        let mut out = self.duplicate();
        if !seg.as_str().is_empty() {
            out.segments.push(seg.clone());
            proof {
                assert(out@ =~= self@.push(seg@));
            }
        }
        out
    }
}

/// Whether two paths have the same components.
pub fn path_eq(a: &ScanPath, b: &ScanPath) -> (r: bool)
    ensures
        r == (a@ == b@),
{
    if a.segments.len() != b.segments.len() {
        proof {
            assert(a@.len() != b@.len());
        }
        return false;
    }
    let mut i: usize = 0;
    while i < a.segments.len()
        invariant
            i <= a.segments.len(),
            a.segments.len() == b.segments.len(),
            forall|j: int| 0 <= j < i ==> a@[j] == b@[j],
        decreases a.segments.len() - i,
    {
        if !(a.segments[i] == b.segments[i]) {
            proof {
                assert(a@[i as int] != b@[i as int]);
            }
            return false;
        }
        i += 1;
    }
    proof {
        assert(a@ =~= b@);
    }
    true
}

/// Whether the components of `a` are a prefix of the components of `b`.
pub fn is_prefix_of(a: &ScanPath, b: &ScanPath) -> (r: bool)
    ensures
        r == is_prefix(a@, b@),
{
    if a.segments.len() > b.segments.len() {
        return false;
    }
    let mut i: usize = 0;
    while i < a.segments.len()
        invariant
            i <= a.segments.len(),
            a.segments.len() <= b.segments.len(),
            a@.len() == a.segments.len(),
            b@.len() == b.segments.len(),
            forall|j: int| 0 <= j < i ==> a@[j] == b@[j],
        decreases a.segments.len() - i,
    {
        if !(a.segments[i] == b.segments[i]) {
            proof {
                assert(a@[i as int] != b@[i as int]);
            }
            return false;
        }
        i += 1;
    }
    true
}

} // verus!
