//! Paths as sequences of byte-string components, with the lexicographic
//! order over components that rows are reported in.
use vstd::prelude::*;

verus! {

/// A path split into its components, each a byte string.
#[derive(Clone, Debug)]
pub struct PathKey {
    pub parts: Vec<Vec<u8>>,
}

impl View for PathKey {
    type V = Seq<Seq<u8>>;

    open spec fn view(&self) -> Seq<Seq<u8>> {
        Seq::new(self.parts@.len(), |i: int| self.parts@[i]@)
    }
}

/// Lexicographic order on byte strings.
pub open spec fn bytes_lt(a: Seq<u8>, b: Seq<u8>) -> bool
    decreases a.len(),
{
    if a.len() == 0 {
        b.len() > 0
    } else if b.len() == 0 {
        false
    } else if a[0] != b[0] {
        a[0] < b[0]
    } else {
        bytes_lt(a.drop_first(), b.drop_first())
    }
}

/// Lexicographic order on paths, component by component.
pub open spec fn path_lt(a: Seq<Seq<u8>>, b: Seq<Seq<u8>>) -> bool
    decreases a.len(),
{
    if a.len() == 0 {
        b.len() > 0
    } else if b.len() == 0 {
        false
    } else if a[0] != b[0] {
        bytes_lt(a[0], b[0])
    } else {
        path_lt(a.drop_first(), b.drop_first())
    }
}

/// `a` is a proper ancestor of `b`: a strictly shorter leading part of it.
pub open spec fn is_ancestor(a: Seq<Seq<u8>>, b: Seq<Seq<u8>>) -> bool {
    a.len() < b.len() && b.subrange(0, a.len() as int) == a
}

/// A sequence of paths in strictly increasing order.
pub open spec fn strictly_sorted(s: Seq<Seq<Seq<u8>>>) -> bool {
    forall|i: int, j: int| 0 <= i < j < s.len() ==> path_lt(#[trigger] s[i], #[trigger] s[j])
}

/// No byte string comes before itself.
pub proof fn lemma_bytes_irreflexive(a: Seq<u8>)
    ensures
        !bytes_lt(a, a),
    decreases a.len(),
{
    if a.len() > 0 {
        lemma_bytes_irreflexive(a.drop_first());
    }
}

/// The order on byte strings is transitive.
pub proof fn lemma_bytes_transitive(a: Seq<u8>, b: Seq<u8>, c: Seq<u8>)
    requires
        bytes_lt(a, b),
        bytes_lt(b, c),
    ensures
        bytes_lt(a, c),
    decreases a.len(),
{
    if a.len() > 0 && b.len() > 0 && c.len() > 0 && a[0] == b[0] && b[0] == c[0] {
        lemma_bytes_transitive(a.drop_first(), b.drop_first(), c.drop_first());
    }
}

/// No path comes before itself.
pub proof fn lemma_path_irreflexive(a: Seq<Seq<u8>>)
    ensures
        !path_lt(a, a),
    decreases a.len(),
{
    if a.len() > 0 {
        lemma_path_irreflexive(a.drop_first());
    }
}

/// The order on paths is transitive.
pub proof fn lemma_path_transitive(a: Seq<Seq<u8>>, b: Seq<Seq<u8>>, c: Seq<Seq<u8>>)
    requires
        path_lt(a, b),
        path_lt(b, c),
    ensures
        path_lt(a, c),
    decreases a.len(),
{
    if a.len() > 0 && b.len() > 0 && c.len() > 0 {
        if a[0] == b[0] && b[0] == c[0] {
            lemma_path_transitive(a.drop_first(), b.drop_first(), c.drop_first());
        } else if a[0] != b[0] && b[0] != c[0] {
            lemma_bytes_transitive(a[0], b[0], c[0]);
            if a[0] == c[0] {
                lemma_bytes_irreflexive(a[0]);
                lemma_bytes_transitive(c[0], b[0], c[0]);
            }
        }
    }
}

/// Of two paths, at most one comes before the other.
pub proof fn lemma_path_asymmetric(a: Seq<Seq<u8>>, b: Seq<Seq<u8>>)
    requires
        path_lt(a, b),
    ensures
        !path_lt(b, a),
{
    if path_lt(b, a) {
        lemma_path_transitive(a, b, a);
        lemma_path_irreflexive(a);
    }
}

/// Compares two byte strings in lexicographic order: -1, 0 or 1.
pub fn compare_bytes(a: &Vec<u8>, b: &Vec<u8>) -> (r: i8)
    ensures
        r == 0 <==> a@ == b@,
        r < 0 <==> bytes_lt(a@, b@),
        r > 0 <==> bytes_lt(b@, a@),
{
    let mut i: usize = 0;
    proof {
        assert(a@.subrange(0, a@.len() as int) =~= a@);
        assert(b@.subrange(0, b@.len() as int) =~= b@);
        assert(a@.subrange(0, 0) =~= b@.subrange(0, 0));
    }
    while i < a.len() && i < b.len()
        invariant
            i <= a@.len(),
            i <= b@.len(),
            a@.subrange(0, i as int) == b@.subrange(0, i as int),
            bytes_lt(a@, b@) == bytes_lt(a@.subrange(i as int, a@.len() as int), b@.subrange(i as int, b@.len() as int)),
            bytes_lt(b@, a@) == bytes_lt(b@.subrange(i as int, b@.len() as int), a@.subrange(i as int, a@.len() as int)),
        decreases a.len() - i,
    {
        if a[i] != b[i] {
            proof {
                if a@ == b@ {
                    assert(a@[i as int] == b@[i as int]);
                }
            }
            if a[i] < b[i] {
                return -1;
            } else {
                return 1;
            }
        }
        proof {
            let sa = a@.subrange(i as int, a@.len() as int);
            let sb = b@.subrange(i as int, b@.len() as int);
            assert(sa.drop_first() =~= a@.subrange(i + 1, a@.len() as int));
            assert(sb.drop_first() =~= b@.subrange(i + 1, b@.len() as int));
            assert(a@.subrange(0, i + 1) =~= a@.subrange(0, i as int).push(a@[i as int]));
            assert(b@.subrange(0, i + 1) =~= b@.subrange(0, i as int).push(b@[i as int]));
        }
        i = i + 1;
    }
    proof {
        assert(a@.subrange(0, i as int) =~= a@.subrange(0, i as int));
        if i == a@.len() {
            assert(a@.subrange(0, i as int) =~= a@);
        }
        if i == b@.len() {
            assert(b@.subrange(0, i as int) =~= b@);
        }
        if a@.len() == b@.len() {
            assert(a@ =~= b@);
        }
    }
    if a.len() < b.len() {
        -1
    } else if a.len() > b.len() {
        1
    } else {
        0
    }
}

/// Compares two paths in lexicographic order over components: -1, 0 or 1.
pub fn compare_paths(a: &PathKey, b: &PathKey) -> (r: i8)
    ensures
        r == 0 <==> a@ == b@,
        r < 0 <==> path_lt(a@, b@),
        r > 0 <==> path_lt(b@, a@),
{
    let mut i: usize = 0;
    proof {
        assert(a@.subrange(0, a@.len() as int) =~= a@);
        assert(b@.subrange(0, b@.len() as int) =~= b@);
        assert(a@.subrange(0, 0) =~= b@.subrange(0, 0));
    }
    while i < a.parts.len() && i < b.parts.len()
        invariant
            i <= a@.len(),
            i <= b@.len(),
            a@.len() == a.parts@.len(),
            b@.len() == b.parts@.len(),
            a@.subrange(0, i as int) == b@.subrange(0, i as int),
            path_lt(a@, b@) == path_lt(a@.subrange(i as int, a@.len() as int), b@.subrange(i as int, b@.len() as int)),
            path_lt(b@, a@) == path_lt(b@.subrange(i as int, b@.len() as int), a@.subrange(i as int, a@.len() as int)),
        decreases a.parts.len() - i,
    {
        let c = compare_bytes(&a.parts[i], &b.parts[i]);
        assert(a.parts@[i as int]@ == a@[i as int]);
        assert(b.parts@[i as int]@ == b@[i as int]);
        if c != 0 {
            proof {
                if a@ == b@ {
                    assert(a@[i as int] == b@[i as int]);
                }
            }
            return c;
        }
        proof {
            let sa = a@.subrange(i as int, a@.len() as int);
            let sb = b@.subrange(i as int, b@.len() as int);
            assert(sa.drop_first() =~= a@.subrange(i + 1, a@.len() as int));
            assert(sb.drop_first() =~= b@.subrange(i + 1, b@.len() as int));
            assert(a@.subrange(0, i + 1) =~= a@.subrange(0, i as int).push(a@[i as int]));
            assert(b@.subrange(0, i + 1) =~= b@.subrange(0, i as int).push(b@[i as int]));
        }
        i = i + 1;
    }
    proof {
        if i == a@.len() {
            assert(a@.subrange(0, i as int) =~= a@);
        }
        if i == b@.len() {
            assert(b@.subrange(0, i as int) =~= b@);
        }
        if a@.len() == b@.len() {
            assert(a@ =~= b@);
        }
    }
    if a.parts.len() < b.parts.len() {
        -1
    } else if a.parts.len() > b.parts.len() {
        1
    } else {
        0
    }
}

/// Whether `a` is a proper ancestor of `b`.
pub fn ancestor_of(a: &PathKey, b: &PathKey) -> (r: bool)
    ensures
        r == is_ancestor(a@, b@),
{
    if a.parts.len() >= b.parts.len() {
        return false;
    }
    let mut i: usize = 0;
    while i < a.parts.len()
        invariant
            i <= a@.len() < b@.len(),
            a@.len() == a.parts@.len(),
            b@.len() == b.parts@.len(),
            forall|k: int| 0 <= k < i ==> a@[k] == b@[k],
        decreases a.parts.len() - i,
    {
        let c = compare_bytes(&a.parts[i], &b.parts[i]);
        assert(a.parts@[i as int]@ == a@[i as int]);
        assert(b.parts@[i as int]@ == b@[i as int]);
        if c != 0 {
            assert(b@.subrange(0, a@.len() as int)[i as int] == b@[i as int]);
            return false;
        }
        i = i + 1;
    }
    assert(b@.subrange(0, a@.len() as int) =~= a@);
    true
}

/// Copies a byte string.
fn copy_bytes(a: &Vec<u8>) -> (r: Vec<u8>)
    ensures
        r@ == a@,
{
    let mut r: Vec<u8> = Vec::new();
    let mut i: usize = 0;
    while i < a.len()
        invariant
            i <= a@.len(),
            r@ == a@.subrange(0, i as int),
        decreases a.len() - i,
    {
        r.push(a[i]);
        assert(a@.subrange(0, i + 1) =~= a@.subrange(0, i as int).push(a@[i as int]));
        i = i + 1;
    }
    assert(a@.subrange(0, i as int) =~= a@);
    r
}

impl PathKey {
    /// Builds a path from its components.
    pub fn new(parts: Vec<Vec<u8>>) -> (r: PathKey)
        ensures
            r.parts@ == parts@,
    {
        PathKey { parts }
    }

    /// A copy of the path.
    pub fn duplicate(&self) -> (r: PathKey)
        ensures
            r@ == self@,
    {
        self.subpath(0)
    }

    /// The components from index `start` on: the path below its first `start`
    /// components.
    pub fn subpath(&self, start: usize) -> (r: PathKey)
        requires
            start <= self@.len(),
        ensures
            r@ == self@.subrange(start as int, self@.len() as int),
    {
        let mut parts: Vec<Vec<u8>> = Vec::new();
        let mut i: usize = start;
        while i < self.parts.len()
            invariant
                start <= i <= self@.len(),
                self@.len() == self.parts@.len(),
                parts@.len() == i - start,
                forall|k: int| 0 <= k < i - start ==> #[trigger] parts@[k]@ == self@[k + start],
            decreases self.parts.len() - i,
        {
            let c = copy_bytes(&self.parts[i]);
            parts.push(c);
            i = i + 1;
        }
        let r = PathKey { parts };
        assert(r@ =~= self@.subrange(start as int, self@.len() as int));
        r
    }

    /// The number of components.
    pub fn len(&self) -> (r: usize)
        ensures
            r == self@.len(),
    {
        self.parts.len()
    }
}

} // verus!
