use vstd::prelude::*;

use crate::prim::Prim;

verus! {

/// Anything with a fixed width in bytes: a primitive or a record layout.
pub trait Lense {
    /// Width in bytes.
    spec fn width(&self) -> nat;

    /// Whether the description is well formed.
    spec fn valid(&self) -> bool;

    /// Width in bytes.
    fn size(&self) -> (r: usize)
        requires
            self.valid(),
        ensures
            r as nat == self.width(),
    ;
}

impl Lense for Prim {
    open spec fn width(&self) -> nat {
        self.spec_size()
    }

    open spec fn valid(&self) -> bool {
        true
    }

    fn size(&self) -> (r: usize) {
        match self {
            Prim::U8 | Prim::I8 => 1,
            Prim::U16 | Prim::I16 => 2,
            Prim::U32 | Prim::I32 => 4,
            Prim::U64 | Prim::I64 => 8,
        }
    }
}

impl Lense for Layout {
    open spec fn width(&self) -> nat {
        self.spec_size()
    }

    open spec fn valid(&self) -> bool {
        self.wf()
    }

    fn size(&self) -> (r: usize) {
        self.size
    }
}

/// Total width of a sequence of primitives.
pub open spec fn leaves_size(s: Seq<Prim>) -> nat
    decreases s.len(),
{
    if s.len() == 0 {
        0
    } else {
        leaves_size(s.drop_last()) + s.last().spec_size()
    }
}

/// Sum of a sequence of field widths.
pub open spec fn total(s: Seq<usize>) -> nat
    decreases s.len(),
{
    if s.len() == 0 {
        0
    } else {
        total(s.drop_last()) + s.last() as nat
    }
}

/// Byte offset of leaf `i` within a record of the leaves `s`.
pub open spec fn leaf_offset(s: Seq<Prim>, i: int) -> nat {
    leaves_size(s.take(i))
}

/// The width of two runs of leaves is the sum of their widths.
pub proof fn lemma_leaves_size_append(a: Seq<Prim>, b: Seq<Prim>)
    ensures
        leaves_size(a + b) == leaves_size(a) + leaves_size(b),
    decreases b.len(),
{
    if b.len() > 0 {
        assert((a + b).drop_last() =~= a + b.drop_last());
        lemma_leaves_size_append(a, b.drop_last());
    }
}

/// The leaves of `parts`, one after the other.
pub open spec fn concat_leaves(parts: Seq<Layout>) -> Seq<Prim>
    decreases parts.len(),
{
    if parts.len() == 0 {
        Seq::empty()
    } else {
        concat_leaves(parts.drop_last()) + parts.last().leaves()
    }
}

/// The widths of `parts`.
pub open spec fn sizes_of(parts: Seq<Layout>) -> Seq<usize> {
    Seq::new(parts.len(), |i: int| parts[i].spec_size() as usize)
}

/// `n` copies of the leaves `s`.
pub open spec fn repeat_leaves(s: Seq<Prim>, n: nat) -> Seq<Prim>
    decreases n,
{
    if n == 0 {
        Seq::empty()
    } else {
        repeat_leaves(s, (n - 1) as nat) + s
    }
}

/// Why a record's field order fails the alignment check.
#[derive(Clone, Copy, Debug, PartialEq, Eq, Structural)]
pub enum AlignmentError {
    /// The field at this index starts at an offset that is not a multiple of
    /// its own width.
    Misaligned { field: usize, offset: usize },
    /// Under strict ordering: the field at this index is wider than the one
    /// before it.
    OutOfOrder { field: usize },
}

/// Field `i` of the widths `f` starts at a multiple of its own width.
pub open spec fn aligned_at(f: Seq<usize>, i: int) -> bool {
    f[i] == 0 || total(f.take(i)) % (f[i] as nat) == 0
}

/// Field `i` of the widths `f` is no wider than the field before it.
pub open spec fn ordered_at(f: Seq<usize>, i: int) -> bool {
    i == 0 || f[i] <= f[i - 1]
}

/// Field `i` passes the check, under strict ordering or not.
pub open spec fn field_ok(f: Seq<usize>, i: int, strict: bool) -> bool {
    aligned_at(f, i) && (strict ==> ordered_at(f, i))
}

/// The fixed layout of a record: its primitive leaves in declaration order,
/// and the widths of its top-level fields.
///
/// Tuples and named records are both written with `record`: each part is one
/// field, in order.  The schema layer inserts no padding, so the width of a
/// layout is the sum of the widths of its parts.
#[derive(Clone, Debug)]
pub struct Layout {
    leaves: Vec<Prim>,
    fields: Vec<usize>,
    starts: Vec<usize>,
    size: usize,
}

impl Layout {
    /// The primitive leaves, in declaration order.
    pub closed spec fn leaves(self) -> Seq<Prim> {
        self.leaves@
    }

    /// The widths of the top-level fields, in declaration order.
    pub closed spec fn fields(self) -> Seq<usize> {
        self.fields@
    }

    /// For each top-level field, the index of its first leaf.
    pub closed spec fn field_starts(self) -> Seq<usize> {
        self.starts@
    }

    /// The number of leaves of top-level field `i`.
    pub open spec fn field_leaves(self, i: int) -> nat {
        let end = if i + 1 < self.field_starts().len() {
            self.field_starts()[i + 1] as int
        } else {
            self.leaves().len() as int
        };
        (end - self.field_starts()[i]) as nat
    }

    /// Width in bytes.
    pub open spec fn spec_size(self) -> nat {
        leaves_size(self.leaves())
    }

    /// The invariant that every operation keeps.
    pub closed spec fn wf(self) -> bool {
        &&& self.size as nat == leaves_size(self.leaves@)
        &&& total(self.fields@) == self.size as nat
        &&& self.starts@.len() == self.fields@.len()
        &&& forall|i: int| 0 <= i < self.starts@.len() ==> #[trigger] self.starts@[i] <= self.leaves@.len()
        &&& forall|i: int| 0 < i < self.starts@.len() ==> self.starts@[i - 1] <= #[trigger] self.starts@[i]
    }

    /// A single primitive.
    pub fn prim(p: Prim) -> (r: Layout)
        ensures
            r.wf(),
            r.leaves() == seq![p],
            r.fields() == seq![p.spec_size() as usize],
            r.field_starts() == seq![0usize],
            r.spec_size() == p.spec_size(),
    {
        let n = p.size();
        let r = Layout { leaves: vec![p], fields: vec![n], starts: vec![0], size: n };
        proof {
            assert(r.leaves@.drop_last() =~= Seq::<Prim>::empty());
            assert(r.fields@.drop_last() =~= Seq::<usize>::empty());
            assert(leaves_size(Seq::<Prim>::empty()) == 0);
            assert(total(Seq::<usize>::empty()) == 0);
            assert(leaves_size(r.leaves@) == p.spec_size());
        }
        r
    }

    /// The primitive leaves, in declaration order.
    pub fn leaf_kinds(&self) -> (r: &Vec<Prim>)
        ensures
            r@ == self.leaves(),
    {
        &self.leaves
    }

    /// The index of the first leaf of top-level field `i`.
    pub fn field_start(&self, i: usize) -> (r: usize)
        requires
            self.wf(),
            i < self.fields().len(),
        ensures
            r == self.field_starts()[i as int],
    {
        self.starts[i]
    }

    /// The number of leaves of top-level field `i`.
    pub fn field_leaf_count(&self, i: usize) -> (r: usize)
        requires
            self.wf(),
            i < self.fields().len(),
        ensures
            r == self.field_leaves(i as int),
            self.field_starts()[i as int] + r <= self.leaves().len(),
    {
        let end = if i < self.starts.len() - 1 {
            self.starts[i + 1]
        } else {
            self.leaves.len()
        };
        end - self.starts[i]
    }

    /// The widths of the top-level fields, in declaration order.
    pub fn field_sizes(&self) -> (r: &Vec<usize>)
        ensures
            r@ == self.fields(),
    {
        &self.fields
    }

    /// An array of `n` elements laid out as `elem`.
    pub fn array(elem: &Layout, n: usize) -> (r: Layout)
        requires
            elem.wf(),
            n * elem.spec_size() <= usize::MAX,
        ensures
            r.wf(),
            r.leaves() == repeat_leaves(elem.leaves(), n as nat),
            r.fields() == Seq::new(n as nat, |i: int| elem.spec_size() as usize),
            r.field_starts().len() == n,
            forall|j: int| 0 <= j < n ==> #[trigger] r.field_starts()[j] == j * elem.leaves().len(),
            r.spec_size() == n * elem.spec_size(),
    {
        let mut leaves: Vec<Prim> = Vec::new();
        let mut fields: Vec<usize> = Vec::new();
        let mut starts: Vec<usize> = Vec::new();
        let ghost m = elem.leaves@.len();
        let mut i: usize = 0;
        while i < n
            invariant
                i <= n,
                elem.wf(),
                m == elem.leaves@.len(),
                leaves@ == repeat_leaves(elem.leaves@, i as nat),
                leaves@.len() == i * m,
                fields@ == Seq::new(i as nat, |j: int| elem.size),
                starts@.len() == i,
                forall|j: int| 0 <= j < i ==> #[trigger] starts@[j] == j * m,
            decreases n - i,
        {
            starts.push(leaves.len());
            let ghost before = leaves@;
            let mut k: usize = 0;
            while k < elem.leaves.len()
                invariant
                    k <= elem.leaves@.len(),
                    leaves@ == before + elem.leaves@.take(k as int),
                decreases elem.leaves@.len() - k,
            {
                leaves.push(elem.leaves[k]);
                proof {
                    assert(elem.leaves@.take(k + 1) =~= elem.leaves@.take(k as int).push(elem.leaves@[k as int]));
                }
                k = k + 1;
            }
            proof {
                assert(elem.leaves@.take(k as int) =~= elem.leaves@);
            }
            fields.push(elem.size);
            proof {
                assert(fields@ =~= Seq::new((i + 1) as nat, |j: int| elem.size));
                assert(leaves@.len() == (i + 1) * m) by (nonlinear_arith)
                    requires
                        leaves@.len() == i * m + m,
                ;
            }
            i = i + 1;
        }
        proof {
            lemma_repeat_size(elem.leaves@, n as nat);
            lemma_total_constant(elem.size, n as nat);
            assert(n * elem.spec_size() == elem.spec_size() * n) by (nonlinear_arith);
            assert forall|j: int| 0 < j < starts@.len() implies starts@[j - 1] <= #[trigger] starts@[j] by {
                assert((j - 1) * m <= j * m) by (nonlinear_arith)
                    requires
                        0 < j,
                ;
            }
            assert forall|j: int| 0 <= j < starts@.len() implies #[trigger] starts@[j] <= leaves@.len() by {
                assert(j * m <= n * m) by (nonlinear_arith)
                    requires
                        j < n,
                ;
            }
        }
        Layout { leaves, fields, starts, size: n * elem.size }
    }

    /// Walks the top-level fields in order and checks that each starts at a
    /// multiple of its own width; under `strict` ordering, also that no field
    /// is wider than the one before it.  Reports the first field that fails.
    pub fn check_alignment(&self, strict: bool) -> (r: Result<(), AlignmentError>)
        requires
            self.wf(),
        ensures
            r is Ok <==> forall|i: int| 0 <= i < self.fields().len() ==> field_ok(self.fields(), i, strict),
            r matches Err(AlignmentError::Misaligned { field, offset }) ==> {
                &&& field < self.fields().len()
                &&& offset == total(self.fields().take(field as int))
                &&& !aligned_at(self.fields(), field as int)
                &&& forall|j: int| 0 <= j < field ==> field_ok(self.fields(), j, strict)
            },
            r matches Err(AlignmentError::OutOfOrder { field }) ==> {
                &&& strict
                &&& field < self.fields().len()
                &&& aligned_at(self.fields(), field as int)
                &&& !ordered_at(self.fields(), field as int)
                &&& forall|j: int| 0 <= j < field ==> field_ok(self.fields(), j, strict)
            },
    {
        let mut offset: usize = 0;
        let mut i: usize = 0;
        while i < self.fields.len()
            invariant
                self.wf(),
                i <= self.fields@.len(),
                offset as nat == total(self.fields@.take(i as int)),
                forall|j: int| 0 <= j < i ==> field_ok(self.fields@, j, strict),
            decreases self.fields@.len() - i,
        {
            let w = self.fields[i];
            if w != 0 && offset % w != 0 {
                assert(!field_ok(self.fields(), i as int, strict));
                return Err(AlignmentError::Misaligned { field: i, offset });
            }
            if strict && i > 0 && w > self.fields[i - 1] {
                assert(!field_ok(self.fields(), i as int, strict));
                return Err(AlignmentError::OutOfOrder { field: i });
            }
            proof {
                assert(self.fields@.take(i + 1).drop_last() =~= self.fields@.take(i as int));
                lemma_total_prefix(self.fields@, i + 1);
            }
            offset = offset + w;
            i = i + 1;
        }
        Ok(())
    }

    /// A record (or tuple) whose fields are `parts`, in order.  Its width is
    /// exactly the sum of the parts' widths.
    #[verifier::rlimit(40)]
    pub fn record(parts: &Vec<Layout>) -> (r: Layout)
        requires
            forall|i: int| 0 <= i < parts@.len() ==> (#[trigger] parts@[i]).wf(),
            total(sizes_of(parts@)) <= usize::MAX,
        ensures
            r.wf(),
            r.leaves() == concat_leaves(parts@),
            r.fields() == sizes_of(parts@),
            r.field_starts().len() == parts@.len(),
            forall|j: int|
                0 <= j < parts@.len() ==> #[trigger] r.field_starts()[j] == concat_leaves(parts@.take(j)).len(),
            forall|j: int|
                0 <= j < parts@.len() ==> r.leaves().subrange(
                    r.field_starts()[j] as int,
                    r.field_starts()[j] + parts@[j].leaves().len(),
                ) == (#[trigger] parts@[j]).leaves(),
            r.spec_size() == total(sizes_of(parts@)),
    {
        let mut leaves: Vec<Prim> = Vec::new();
        let mut fields: Vec<usize> = Vec::new();
        let mut starts: Vec<usize> = Vec::new();
        let mut size: usize = 0;
        let mut i: usize = 0;
        while i < parts.len()
            invariant
                i <= parts@.len(),
                forall|j: int| 0 <= j < parts@.len() ==> (#[trigger] parts@[j]).wf(),
                total(sizes_of(parts@)) <= usize::MAX,
                leaves@ == concat_leaves(parts@.take(i as int)),
                fields@ == sizes_of(parts@.take(i as int)),
                starts@.len() == i,
                forall|j: int| 0 <= j < i ==> #[trigger] starts@[j] == concat_leaves(parts@.take(j)).len(),
                size as nat == total(fields@),
                size as nat == leaves_size(leaves@),
            decreases parts@.len() - i,
        {
            let part = &parts[i];
            starts.push(leaves.len());
            let ghost before = leaves@;
            let mut k: usize = 0;
            while k < part.leaves.len()
                invariant
                    k <= part.leaves@.len(),
                    leaves@ == before + part.leaves@.take(k as int),
                decreases part.leaves@.len() - k,
            {
                leaves.push(part.leaves[k]);
                proof {
                    assert(part.leaves@.take(k + 1) =~= part.leaves@.take(k as int).push(part.leaves@[k as int]));
                }
                k = k + 1;
            }
            proof {
                let pre = parts@.take(i as int);
                let post = parts@.take(i + 1);
                assert(post.drop_last() =~= pre);
                assert(part.leaves@.take(k as int) =~= part.leaves@);
                assert(sizes_of(post).drop_last() =~= sizes_of(pre));
                assert(sizes_of(post) =~= sizes_of(pre).push(part.size));
                lemma_total_prefix(sizes_of(parts@), i + 1);
                assert(sizes_of(parts@).take(i + 1) =~= sizes_of(post));
                lemma_leaves_size_append(before, part.leaves@);
            }
            size = size + part.size;
            fields.push(part.size);
            i = i + 1;
        }
        proof {
            assert(parts@.take(i as int) =~= parts@);
            assert forall|j: int| 0 < j < starts@.len() implies starts@[j - 1] <= #[trigger] starts@[j] by {
                lemma_concat_prefix(parts@.take(j), j - 1);
                assert(parts@.take(j).take(j - 1) =~= parts@.take(j - 1));
            }
            assert forall|j: int| 0 <= j < starts@.len() implies #[trigger] starts@[j] <= leaves@.len() by {
                lemma_concat_prefix(parts@, j);
            }
            assert forall|j: int| 0 <= j < parts@.len() implies leaves@.subrange(
                starts@[j] as int,
                starts@[j] + parts@[j].leaves().len(),
            ) == (#[trigger] parts@[j]).leaves() by {
                lemma_concat_field(parts@, j);
            }
        }
        Layout { leaves, fields, starts, size }
    }
}

/// A record is exactly as wide as its parts together: the schema layer adds
/// no padding.
pub proof fn lemma_size_additivity(parts: Seq<Layout>)
    requires
        forall|i: int| 0 <= i < parts.len() ==> (#[trigger] parts[i]).wf(),
    ensures
        leaves_size(concat_leaves(parts)) == total(sizes_of(parts)),
    decreases parts.len(),
{
    if parts.len() > 0 {
        let init = parts.drop_last();
        lemma_size_additivity(init);
        lemma_leaves_size_append(concat_leaves(init), parts.last().leaves());
        assert(sizes_of(parts).drop_last() =~= sizes_of(init));
        assert(parts.last() == parts[parts.len() - 1]);
    } else {
        assert(sizes_of(parts) =~= Seq::<usize>::empty());
    }
}

/// The leaves of the first `j` parts begin the leaves of all of them.
pub proof fn lemma_concat_prefix(parts: Seq<Layout>, j: int)
    requires
        0 <= j <= parts.len(),
    ensures
        concat_leaves(parts.take(j)).len() <= concat_leaves(parts).len(),
        concat_leaves(parts).subrange(0, concat_leaves(parts.take(j)).len() as int) == concat_leaves(parts.take(j)),
    decreases parts.len(),
{
    if j == parts.len() {
        assert(parts.take(j) =~= parts);
        assert(concat_leaves(parts).subrange(0, concat_leaves(parts).len() as int) =~= concat_leaves(parts));
    } else {
        let init = parts.drop_last();
        lemma_concat_prefix(init, j);
        assert(init.take(j) =~= parts.take(j));
        let p = concat_leaves(parts.take(j));
        assert(concat_leaves(parts).subrange(0, p.len() as int) =~= concat_leaves(init).subrange(0, p.len() as int));
    }
}

/// The leaves of part `j` stand in the leaves of all parts right after those of
/// the parts before it.
pub proof fn lemma_concat_field(parts: Seq<Layout>, j: int)
    requires
        0 <= j < parts.len(),
    ensures
        concat_leaves(parts).subrange(
            concat_leaves(parts.take(j)).len() as int,
            (concat_leaves(parts.take(j)).len() + parts[j].leaves().len()) as int,
        ) == parts[j].leaves(),
{
    let pre = concat_leaves(parts.take(j));
    let post = concat_leaves(parts.take(j + 1));
    assert(parts.take(j + 1).drop_last() =~= parts.take(j));
    assert(post == pre + parts[j].leaves());
    lemma_concat_prefix(parts, j + 1);
    assert(concat_leaves(parts).subrange(pre.len() as int, (pre.len() + parts[j].leaves().len()) as int) =~= post.subrange(
        pre.len() as int,
        post.len() as int,
    ));
    assert(post.subrange(pre.len() as int, post.len() as int) =~= parts[j].leaves());
}

/// `n` copies of a run of `m` leaves are `n * m` leaves.
pub proof fn lemma_repeat_len(s: Seq<Prim>, n: nat)
    ensures
        repeat_leaves(s, n).len() == n * s.len(),
    decreases n,
{
    if n > 0 {
        lemma_repeat_len(s, (n - 1) as nat);
        let p = (n - 1) as nat;
        assert(p * s.len() + s.len() == n * s.len()) by (nonlinear_arith)
            requires
                p + 1 == n,
        ;
    } else {
        assert(repeat_leaves(s, n).len() == 0);
    }
}

/// Records laid back to back: in `n` copies of the leaves `s`, leaf `i` of
/// copy `k` is `s[i]` and starts `k` records in, where the record's own layout
/// puts it.  So a lens on `n` records read one after another is the lens on
/// the array of them, and the round trip of one record covers them all.
pub proof fn lemma_repeat_offset(s: Seq<Prim>, n: nat, k: nat, i: int)
    requires
        k < n,
        0 <= i < s.len(),
    ensures
        k * s.len() + i < repeat_leaves(s, n).len(),
        repeat_leaves(s, n)[k * s.len() + i] == s[i],
        leaf_offset(repeat_leaves(s, n), k * s.len() + i) == k * leaves_size(s) + leaf_offset(s, i),
    decreases n,
{
    let m = s.len();
    let r = repeat_leaves(s, n);
    let init = repeat_leaves(s, (n - 1) as nat);
    lemma_repeat_len(s, n);
    lemma_repeat_len(s, (n - 1) as nat);
    let t = k * m + i;
    if k + 1 < n {
        lemma_repeat_offset(s, (n - 1) as nat, k, i);
        assert(t < (n - 1) * m) by (nonlinear_arith)
            requires
                t == k * m + i,
                i < m,
                k + 1 < n,
        ;
        assert(r.take(t) =~= init.take(t));
    } else {
        assert(k * m == (n - 1) * m);
        assert(r.take(t) =~= init + s.take(i));
        lemma_leaves_size_append(init, s.take(i));
        lemma_repeat_size(s, k);
    }
    assert(t < n * m) by (nonlinear_arith)
        requires
            t == k * m + i,
            i < m,
            k < n,
    ;
}

/// `n` copies of a run of leaves are `n` times as wide.
pub proof fn lemma_repeat_size(s: Seq<Prim>, n: nat)
    ensures
        leaves_size(repeat_leaves(s, n)) == n * leaves_size(s),
    decreases n,
{
    if n > 0 {
        lemma_repeat_size(s, (n - 1) as nat);
        lemma_leaves_size_append(repeat_leaves(s, (n - 1) as nat), s);
        let m = (n - 1) as nat;
        assert(m * leaves_size(s) + leaves_size(s) == n * leaves_size(s)) by (nonlinear_arith)
            requires
                m + 1 == n,
        ;
    } else {
        assert(leaves_size(repeat_leaves(s, n)) == 0);
    }
}

/// `n` fields of width `w` add up to `n * w`.
pub proof fn lemma_total_constant(w: usize, n: nat)
    ensures
        total(Seq::new(n, |i: int| w)) == n * w,
    decreases n,
{
    if n > 0 {
        assert(Seq::new(n, |i: int| w).drop_last() =~= Seq::new((n - 1) as nat, |i: int| w));
        lemma_total_constant(w, (n - 1) as nat);
        let m = (n - 1) as nat;
        assert(m * w + w == n * w) by (nonlinear_arith)
            requires
                m + 1 == n,
        ;
    } else {
        assert(total(Seq::new(n, |i: int| w)) == 0);
    }
}

/// The leading fields are never wider than all of them.
pub proof fn lemma_total_prefix(s: Seq<usize>, k: int)
    requires
        0 <= k <= s.len(),
    ensures
        total(s.take(k)) <= total(s),
    decreases s.len() - k,
{
    if k < s.len() {
        lemma_total_prefix(s, k + 1);
        assert(s.take(k + 1).drop_last() =~= s.take(k));
    } else {
        assert(s.take(k) =~= s);
    }
}

} // verus!
