use vstd::prelude::*;
use vstd::multiset::Multiset;
use vstd::relations::*;

verus! {

/// A filesystem path, held as the sequence of its components, each as the
/// bytes the system names it by, in the order in which a path's components
/// are listed: the root, when the path has one, is the component `/`; a
/// leading `.` and every `..` stand as they are; every other component is a
/// name, which holds no `/`. Beside its components, a path keeps the bytes
/// by which it is shown: as it was written, for a path given to the library,
/// or its components joined, for a path the library builds.
#[derive(Debug)]
pub struct FsPath {
    pub parts: Vec<Vec<u8>>,
    pub shown: Vec<u8>,
}

impl View for FsPath {
    type V = Seq<Seq<u8>>;

    open spec fn view(&self) -> Seq<Seq<u8>> {
        parts_view(self.parts@)
    }
}

/// The byte of the path separator, `/`.
pub const SEPARATOR: u8 = 47;

/// The byte of `.`.
pub const DOT: u8 = 46;

/// The contents of a list of byte strings.
pub open spec fn parts_view(v: Seq<Vec<u8>>) -> Seq<Seq<u8>> {
    Seq::new(v.len(), |i: int| v[i]@)
}

/// The views of a list of paths.
pub open spec fn paths_view(v: Seq<FsPath>) -> Seq<Seq<Seq<u8>>> {
    v.map_values(|p: FsPath| p@)
}

/// The root component, `/`.
pub open spec fn root_part() -> Seq<u8> {
    seq![SEPARATOR]
}

/// The component `.`, which stands only at the start of a path.
pub open spec fn cur_part() -> Seq<u8> {
    seq![DOT]
}

/// The component `..`.
pub open spec fn parent_part() -> Seq<u8> {
    seq![DOT, DOT]
}

/// Where a component's kind stands in the order of components: the root
/// first, then `.`, then `..`, then names.
pub open spec fn part_rank(c: Seq<u8>) -> int {
    if c == root_part() {
        1
    } else if c == cur_part() {
        2
    } else if c == parent_part() {
        3
    } else {
        4
    }
}

/// Lexicographic comparison of two byte strings: -1, 0 or 1.
pub open spec fn bytes_compare(a: Seq<u8>, b: Seq<u8>) -> int
    decreases a.len(),
{
    if a.len() == 0 {
        if b.len() == 0 {
            0
        } else {
            -1
        }
    } else if b.len() == 0 {
        1
    } else if a[0] < b[0] {
        -1
    } else if a[0] > b[0] {
        1
    } else {
        bytes_compare(a.drop_first(), b.drop_first())
    }
}

/// Comparison of two components: by kind, then, between names, by their bytes.
pub open spec fn part_compare(a: Seq<u8>, b: Seq<u8>) -> int {
    if part_rank(a) < part_rank(b) {
        -1
    } else if part_rank(a) > part_rank(b) {
        1
    } else {
        bytes_compare(a, b)
    }
}

/// Comparison of two paths, component by component, a proper prefix first.
pub open spec fn path_compare(a: Seq<Seq<u8>>, b: Seq<Seq<u8>>) -> int
    decreases a.len(),
{
    if a.len() == 0 {
        if b.len() == 0 {
            0
        } else {
            -1
        }
    } else if b.len() == 0 {
        1
    } else if part_compare(a[0], b[0]) != 0 {
        part_compare(a[0], b[0])
    } else {
        path_compare(a.drop_first(), b.drop_first())
    }
}

/// Whether `a` comes no later than `b` in the order of paths.
pub open spec fn path_le(a: Seq<Seq<u8>>, b: Seq<Seq<u8>>) -> bool {
    path_compare(a, b) <= 0
}

/// The order in which paths are sorted.
pub open spec fn path_order() -> spec_fn(Seq<Seq<u8>>, Seq<Seq<u8>>) -> bool {
    |a: Seq<Seq<u8>>, b: Seq<Seq<u8>>| path_le(a, b)
}

proof fn lemma_bytes_compare(a: Seq<u8>, b: Seq<u8>)
    ensures
        -1 <= bytes_compare(a, b) <= 1,
        bytes_compare(a, b) == -bytes_compare(b, a),
        bytes_compare(a, b) == 0 <==> a == b,
    decreases a.len(),
{
    if a.len() > 0 && b.len() > 0 {
        lemma_bytes_compare(a.drop_first(), b.drop_first());
        if a[0] == b[0] && a.drop_first() == b.drop_first() {
            assert(a =~= seq![a[0]] + a.drop_first());
            assert(b =~= seq![b[0]] + b.drop_first());
        }
        if a == b {
            assert(a.drop_first() == b.drop_first());
        }
    } else if a.len() == 0 && b.len() == 0 {
        assert(a =~= b);
    }
}

proof fn lemma_bytes_compare_trans(a: Seq<u8>, b: Seq<u8>, c: Seq<u8>)
    requires
        bytes_compare(a, b) <= 0,
        bytes_compare(b, c) <= 0,
    ensures
        bytes_compare(a, c) <= 0,
    decreases a.len(),
{
    if a.len() > 0 && b.len() > 0 && c.len() > 0 {
        if a[0] == b[0] && b[0] == c[0] {
            lemma_bytes_compare_trans(a.drop_first(), b.drop_first(), c.drop_first());
        }
    }
}

proof fn lemma_part_compare(a: Seq<u8>, b: Seq<u8>)
    ensures
        -1 <= part_compare(a, b) <= 1,
        part_compare(a, b) == -part_compare(b, a),
        part_compare(a, b) == 0 <==> a == b,
{
    lemma_bytes_compare(a, b);
}

proof fn lemma_part_compare_trans(a: Seq<u8>, b: Seq<u8>, c: Seq<u8>)
    requires
        part_compare(a, b) <= 0,
        part_compare(b, c) <= 0,
    ensures
        part_compare(a, c) <= 0,
{
    if part_rank(a) == part_rank(b) && part_rank(b) == part_rank(c) {
        lemma_bytes_compare_trans(a, b, c);
    }
}

pub proof fn lemma_path_compare(a: Seq<Seq<u8>>, b: Seq<Seq<u8>>)
    ensures
        -1 <= path_compare(a, b) <= 1,
        path_compare(a, b) == -path_compare(b, a),
        path_compare(a, b) == 0 <==> a == b,
    decreases a.len(),
{
    if a.len() > 0 && b.len() > 0 {
        lemma_part_compare(a[0], b[0]);
        lemma_path_compare(a.drop_first(), b.drop_first());
        if a[0] == b[0] && a.drop_first() == b.drop_first() {
            assert(a =~= seq![a[0]] + a.drop_first());
            assert(b =~= seq![b[0]] + b.drop_first());
        }
        if a == b {
            assert(a.drop_first() == b.drop_first());
        }
    } else if a.len() == 0 && b.len() == 0 {
        assert(a =~= b);
    }
}

pub proof fn lemma_path_compare_trans(a: Seq<Seq<u8>>, b: Seq<Seq<u8>>, c: Seq<Seq<u8>>)
    requires
        path_compare(a, b) <= 0,
        path_compare(b, c) <= 0,
    ensures
        path_compare(a, c) <= 0,
    decreases a.len(),
{
    if a.len() > 0 && b.len() > 0 && c.len() > 0 {
        lemma_part_compare(a[0], b[0]);
        lemma_part_compare(b[0], c[0]);
        lemma_part_compare(a[0], c[0]);
        lemma_part_compare_trans(a[0], b[0], c[0]);
        if part_compare(a[0], b[0]) == 0 && part_compare(b[0], c[0]) == 0 {
            lemma_path_compare_trans(a.drop_first(), b.drop_first(), c.drop_first());
        } else if part_compare(a[0], b[0]) == 0 {
            assert(a[0] == b[0]);
        } else if part_compare(b[0], c[0]) == 0 {
            assert(b[0] == c[0]);
        } else {
            assert(part_compare(a[0], c[0]) != 0) by {
                if part_compare(a[0], c[0]) == 0 {
                    assert(a[0] == c[0]);
                }
            }
        }
    }
}

/// The order in which paths are sorted is a total order: reflexive,
/// antisymmetric, transitive, and any two paths are comparable.
pub proof fn path_order_is_total()
    ensures
        total_ordering(path_order()),
{
    assert forall|x: Seq<Seq<u8>>| #[trigger] path_order()(x, x) by {
        lemma_path_compare(x, x);
    }
    assert forall|x: Seq<Seq<u8>>, y: Seq<Seq<u8>>|
        #[trigger] path_order()(x, y) && #[trigger] path_order()(y, x) implies x == y by {
        lemma_path_compare(x, y);
    }
    assert forall|x: Seq<Seq<u8>>, y: Seq<Seq<u8>>, z: Seq<Seq<u8>>|
        #[trigger] path_order()(x, y) && #[trigger] path_order()(y, z) implies path_order()(x, z) by {
        lemma_path_compare_trans(x, y, z);
    }
    assert forall|x: Seq<Seq<u8>>, y: Seq<Seq<u8>>|
        #[trigger] path_order()(x, y) || #[trigger] path_order()(y, x) by {
        lemma_path_compare(x, y);
    }
}


fn compare_bytes(a: &Vec<u8>, b: &Vec<u8>) -> (r: i8)
    ensures
        r as int == bytes_compare(a@, b@),
{
    let mut i: usize = 0;
    assert(a@.skip(0) =~= a@);
    assert(b@.skip(0) =~= b@);
    while i < a.len() && i < b.len()
        invariant
            i <= a.len(),
            i <= b.len(),
            bytes_compare(a@, b@) == bytes_compare(a@.skip(i as int), b@.skip(i as int)),
        decreases a.len() - i,
    {
        if a[i] < b[i] {
            return -1;
        }
        if a[i] > b[i] {
            return 1;
        }
        assert(a@.skip(i as int).drop_first() =~= a@.skip(i + 1));
        assert(b@.skip(i as int).drop_first() =~= b@.skip(i + 1));
        i = i + 1;
    }
    if i == a.len() && i == b.len() {
        0
    } else if i == a.len() {
        -1
    } else {
        1
    }
}

fn rank_of(c: &Vec<u8>) -> (r: i8)
    ensures
        r as int == part_rank(c@),
{
    if c.len() == 1 && c[0] == SEPARATOR {
        assert(c@ =~= root_part());
        1
    } else if c.len() == 1 && c[0] == DOT {
        assert(c@ =~= cur_part());
        2
    } else if c.len() == 2 && c[0] == DOT && c[1] == DOT {
        assert(c@ =~= parent_part());
        3
    } else {
        assert(c@ != root_part() && c@ != cur_part() && c@ != parent_part()) by {
            if c@ == root_part() || c@ == cur_part() || c@ == parent_part() {
                assert(c@.len() <= 2);
            }
        }
        4
    }
}

fn compare_parts(a: &Vec<u8>, b: &Vec<u8>) -> (r: i8)
    ensures
        r as int == part_compare(a@, b@),
{
    let rx = rank_of(a);
    let ry = rank_of(b);
    if rx < ry {
        -1
    } else if rx > ry {
        1
    } else {
        compare_bytes(a, b)
    }
}

/// Compares two paths in the order in which paths are sorted.
pub fn compare_paths(a: &FsPath, b: &FsPath) -> (r: i8)
    ensures
        r as int == path_compare(a@, b@),
{
    let mut i: usize = 0;
    assert(a@.skip(0) =~= a@);
    assert(b@.skip(0) =~= b@);
    while i < a.parts.len() && i < b.parts.len()
        invariant
            i <= a@.len(),
            i <= b@.len(),
            a@.len() == a.parts@.len(),
            b@.len() == b.parts@.len(),
            path_compare(a@, b@) == path_compare(a@.skip(i as int), b@.skip(i as int)),
        decreases a.parts.len() - i,
    {
        let c = compare_parts(&a.parts[i], &b.parts[i]);
        if c != 0 {
            return c;
        }
        assert(a@.skip(i as int).drop_first() =~= a@.skip(i + 1));
        assert(b@.skip(i as int).drop_first() =~= b@.skip(i + 1));
        i = i + 1;
    }
    if i == a.parts.len() && i == b.parts.len() {
        0
    } else if i == a.parts.len() {
        -1
    } else {
        1
    }
}

/// Sorts paths into the order in which paths are sorted; each path comes
/// out as it went in.
pub fn sort_paths(v: Vec<FsPath>) -> (r: Vec<FsPath>)
    ensures
        paths_view(r@) == paths_view(v@).sort_by(path_order()),
        forall|i: int| 0 <= i < r@.len() ==> v@.contains(#[trigger] r@[i]),
{
    broadcast use vstd::seq_lib::group_to_multiset_ensures;
    broadcast use vstd::multiset::group_multiset_axioms;

    let ghost orig = paths_view(v@);
    let ghost given = v@;
    let mut rest = v;
    let mut out: Vec<FsPath> = Vec::new();
    assert(paths_view(out@) =~= Seq::empty());
    while rest.len() > 0
        invariant
            sorted_by(paths_view(out@), path_order()),
            paths_view(out@).to_multiset().add(paths_view(rest@).to_multiset()) =~= orig.to_multiset(),
            forall|i: int| 0 <= i < out@.len() ==> given.contains(#[trigger] out@[i]),
            forall|i: int| 0 <= i < rest@.len() ==> given.contains(#[trigger] rest@[i]),
        decreases rest.len(),
    {
        let ghost rest_before = paths_view(rest@);
        let ghost rest_values = rest@;
        let x = rest.pop().unwrap();
        assert(given.contains(x)) by {
            assert(rest_values[rest_values.len() - 1] == x);
        }
        assert forall|i: int| 0 <= i < rest@.len() implies given.contains(#[trigger] rest@[i]) by {
            assert(rest@[i] == rest_values[i]);
        }
        assert(rest_before =~= paths_view(rest@).push(x@));
        proof {
            vstd::seq_lib::to_multiset_build(paths_view(rest@), x@);
            assert(rest_before.to_multiset() =~= paths_view(rest@).to_multiset().insert(x@));
        }
        let ghost before = paths_view(out@);
        let ghost out_values = out@;
        let mut k: usize = 0;
        while k < out.len() && compare_paths(&x, &out[k]) >= 0
            invariant
                k <= out@.len(),
                paths_view(out@) == before,
                forall|i: int| 0 <= i < k ==> path_le(#[trigger] before[i], x@),
            decreases out.len() - k,
        {
            proof {
                lemma_path_compare(x@, out@[k as int]@);
            }
            k = k + 1;
        }
        out.insert(k, x);
        assert forall|i: int| 0 <= i < out@.len() implies given.contains(#[trigger] out@[i]) by {
            if i < k {
                assert(out@[i] == out_values[i]);
            } else if i > k {
                assert(out@[i] == out_values[i - 1]);
            }
        }
        let ghost after = paths_view(out@);
        assert(after =~= before.insert(k as int, x@));
        proof {
            assert(after.remove(k as int) =~= before);
            assert(after[k as int] == x@);
            after.to_multiset_ensures();
            assert(after.contains(x@));
            assert(after.to_multiset() =~= before.to_multiset().insert(x@));
            assert forall|i: int, j: int| 0 <= i < j < after.len() implies
                #[trigger] path_order()(after[i], after[j]) by {
                if j < k {
                } else if i > k {
                    assert(path_order()(before[i - 1], before[j - 1]));
                } else if i == k {
                    // x is below before[k], which is below everything after it
                    assert(path_compare(x@, before[k as int]) < 0);
                    if j - 1 > k {
                        assert(path_order()(before[k as int], before[j - 1]));
                    } else {
                        lemma_path_compare(before[k as int], before[j - 1]);
                    }
                    lemma_path_compare_trans(x@, before[k as int], before[j - 1]);
                } else if j == k {
                    assert(path_le(before[i], x@));
                } else {
                    assert(path_order()(before[i], before[j - 1]));
                }
            }
        }
    }
    proof {
        assert(paths_view(rest@) =~= Seq::empty());
        paths_view(rest@).to_multiset_ensures();
        assert(paths_view(rest@).to_multiset() =~= Multiset::empty());
        assert(paths_view(out@).to_multiset() =~= orig.to_multiset());
        path_order_is_total();
        orig.lemma_sort_by_ensures(path_order());
        assert(paths_view(out@).to_multiset() == orig.sort_by(path_order()).to_multiset());
        vstd::seq_lib::lemma_sorted_unique(paths_view(out@), orig.sort_by(path_order()), path_order());
    }
    out
}

/// Whether `base` is a prefix of `p`, component by component: what
/// `p.starts_with(base)` answers.
pub open spec fn is_prefix_of(base: Seq<Seq<u8>>, p: Seq<Seq<u8>>) -> bool {
    base.len() <= p.len() && p.take(base.len() as int) == base
}

/// What `p.strip_prefix(base)` gives: the components of `p` after `base`.
pub open spec fn strip_prefix_of(p: Seq<Seq<u8>>, base: Seq<Seq<u8>>) -> Option<Seq<Seq<u8>>> {
    if is_prefix_of(base, p) {
        Some(p.skip(base.len() as int))
    } else {
        None
    }
}

/// The components of `base.join(rel)`: an absolute `rel` replaces `base`, a
/// leading `.` of `rel` disappears once it stands inside a path.
pub open spec fn join_of(base: Seq<Seq<u8>>, rel: Seq<Seq<u8>>) -> Seq<Seq<u8>> {
    if rel.len() > 0 && rel[0] == root_part() {
        rel
    } else if rel.len() > 0 && rel[0] == cur_part() && base.len() > 0 {
        base + rel.drop_first()
    } else {
        base + rel
    }
}

/// The bytes of a path built by pushing its components one after the other:
/// a separator goes between two components unless the bytes already end in one.
pub open spec fn path_bytes(parts: Seq<Seq<u8>>) -> Seq<u8>
    decreases parts.len(),
{
    if parts.len() == 0 {
        seq![]
    } else {
        let pre = path_bytes(parts.drop_last());
        let c = parts.last();
        if c == root_part() {
            root_part()
        } else if pre.len() == 0 {
            c
        } else if pre.last() == SEPARATOR {
            pre + c
        } else {
            pre + seq![SEPARATOR] + c
        }
    }
}

/// What `String::from_utf8_lossy` makes of bytes.
pub uninterp spec fn lossy_text(b: Seq<u8>) -> Seq<char>;

/// The text of bytes as they are shown: decoded, when they are valid UTF-8;
/// otherwise each invalid sequence shows as a replacement character.
pub open spec fn shown_text(b: Seq<u8>) -> Seq<char> {
    if vstd::utf8::valid_utf8(b) {
        vstd::utf8::decode_utf8(b)
    } else {
        lossy_text(b)
    }
}

/// `String::from_utf8_lossy`: bytes read as UTF-8, each invalid sequence
/// replaced by U+FFFD; bytes that are valid UTF-8 are decoded as they are,
/// as its documentation states. Otherwise a function of the bytes alone.
#[verifier::external_body]
fn text_from_bytes(b: &Vec<u8>) -> (r: String)
    ensures
        vstd::utf8::valid_utf8(b@) ==> r@ == vstd::utf8::decode_utf8(b@),
        !vstd::utf8::valid_utf8(b@) ==> r@ == lossy_text(b@),
{
    String::from_utf8_lossy(b.as_slice()).into_owned()
}

/// Whether two directories overlap: one of them is the other or lies inside it.
pub open spec fn paths_overlap(a: Seq<Seq<u8>>, b: Seq<Seq<u8>>) -> bool {
    a == b || is_prefix_of(b, a) || is_prefix_of(a, b)
}

/// Whether no element of `s` before index `end` repeats an earlier one.
pub open spec fn distinct_before<A>(s: Seq<A>, end: int) -> bool {
    forall|i: int, j: int| 0 <= i < j < end ==> s[i] != s[j]
}

/// A copy of a byte string.
fn copy_bytes(b: &Vec<u8>) -> (r: Vec<u8>)
    ensures
        r@ == b@,
{
    let mut out: Vec<u8> = Vec::new();
    let mut i: usize = 0;
    while i < b.len()
        invariant
            i <= b@.len(),
            out@ == b@.take(i as int),
        decreases b.len() - i,
    {
        out.push(b[i]);
        i = i + 1;
        assert(out@ =~= b@.take(i as int));
    }
    assert(b@.take(i as int) =~= b@);
    out
}

/// Appends a copy of a byte string.
fn push_copy(parts: &mut Vec<Vec<u8>>, s: &Vec<u8>)
    ensures
        parts_view(final(parts)@) == parts_view(old(parts)@).push(s@),
{
    let c = copy_bytes(s);
    let ghost prev = parts_view(parts@);
    parts.push(c);
    assert(parts_view(parts@) =~= prev.push(c@));
}

impl FsPath {
    /// A path made of the given components, shown as they join.
    pub fn new(parts: Vec<Vec<u8>>) -> (r: FsPath)
        ensures
            r.parts@ == parts@,
            r.shown@ == path_bytes(r@),
    {
        let shown = join_parts(&parts);
        FsPath { parts, shown }
    }

    /// A path made of the given components, shown as it was written.
    pub fn written(parts: Vec<Vec<u8>>, shown: Vec<u8>) -> (r: FsPath)
        ensures
            r.parts@ == parts@,
            r.shown@ == shown@,
    {
        FsPath { parts, shown }
    }

    /// A copy of the path.
    pub fn duplicate(&self) -> (r: FsPath)
        ensures
            r@ == self@,
            r.shown@ == self.shown@,
    {
        let mut parts: Vec<Vec<u8>> = Vec::new();
        let mut i: usize = 0;
        while i < self.parts.len()
            invariant
                i <= self.parts@.len(),
                parts_view(parts@) == self@.take(i as int),
            decreases self.parts.len() - i,
        {
            push_copy(&mut parts, &self.parts[i]);
            i = i + 1;
            assert(parts_view(parts@) =~= self@.take(i as int));
        }
        assert(self@.take(i as int) =~= self@);
        FsPath { parts, shown: copy_bytes(&self.shown) }
    }

    /// The last component, when it is a name: what `file_name()` gives.
    pub fn file_name(&self) -> (r: Option<Vec<u8>>)
        ensures
            r is Some <==> has_file_name(self@),
            r matches Some(n) ==> n@ == self@.last(),
    {
        let n = self.parts.len();
        if n == 0 {
            return None;
        }
        let rank = rank_of(&self.parts[n - 1]);
        if rank == 4 {
            Some(copy_bytes(&self.parts[n - 1]))
        } else {
            None
        }
    }
}

/// Whether a path ends in a name (and not in the root, `.` or `..`).
pub open spec fn has_file_name(p: Seq<Seq<u8>>) -> bool {
    p.len() > 0 && part_rank(p.last()) == 4
}

/// Whether two paths have the same components.
pub fn same_path(a: &FsPath, b: &FsPath) -> (r: bool)
    ensures
        r == (a@ == b@),
{
    proof {
        lemma_path_compare(a@, b@);
    }
    compare_paths(a, b) == 0
}

/// Whether `base` is a prefix of `p`, component by component.
pub fn starts_with(p: &FsPath, base: &FsPath) -> (r: bool)
    ensures
        r == is_prefix_of(base@, p@),
        r <==> base@.len() <= p@.len() && forall|i: int| 0 <= i < base@.len() ==> p@[i] == base@[i],
{
    proof {
        prefix_is_leading_components(base@, p@);
    }
    if base.parts.len() > p.parts.len() {
        return false;
    }
    let mut i: usize = 0;
    while i < base.parts.len()
        invariant
            base@.len() <= p@.len(),
            i <= base@.len(),
            base@.len() == base.parts@.len(),
            p@.len() == p.parts@.len(),
            p@.take(i as int) == base@.take(i as int),
        decreases base.parts.len() - i,
    {
        let c = compare_bytes(&base.parts[i], &p.parts[i]);
        proof {
            lemma_bytes_compare(base@[i as int], p@[i as int]);
        }
        if c != 0 {
            assert(p@.take(base@.len() as int)[i as int] != base@[i as int]);
            return false;
        }
        assert(p@.take(i + 1) =~= p@.take(i as int).push(p@[i as int]));
        assert(base@.take(i + 1) =~= base@.take(i as int).push(base@[i as int]));
        i = i + 1;
    }
    assert(base@.take(i as int) =~= base@);
    true
}

/// The components of `p` after `base`, when `base` is a prefix of `p`.
pub fn strip_prefix(p: &FsPath, base: &FsPath) -> (r: Option<FsPath>)
    ensures
        match (r, strip_prefix_of(p@, base@)) {
            (Some(x), Some(y)) => x@ == y,
            (None, None) => true,
            _ => false,
        },
        r matches Some(x) ==> x.shown@ == path_bytes(x@),
{
    if !starts_with(p, base) {
        return None;
    }
    let mut parts: Vec<Vec<u8>> = Vec::new();
    let mut i: usize = base.parts.len();
    let ghost start = base@.len() as int;
    while i < p.parts.len()
        invariant
            start <= i <= p@.len(),
            start == base@.len(),
            p@.len() == p.parts@.len(),
            parts_view(parts@) == p@.subrange(start, i as int),
        decreases p.parts.len() - i,
    {
        push_copy(&mut parts, &p.parts[i]);
        i = i + 1;
        assert(parts_view(parts@) =~= p@.subrange(start, i as int));
    }
    assert(p@.subrange(start, i as int) =~= p@.skip(start));
    Some(FsPath::new(parts))
}

/// The path `rel` joined onto `base`: an absolute `rel` as it was written,
/// any other shown by its components.
pub fn join(base: &FsPath, rel: &FsPath) -> (r: FsPath)
    ensures
        r@ == join_of(base@, rel@),
        rel@.len() > 0 && part_rank(rel@[0]) == 1 ==> r.shown@ == rel.shown@,
        !(rel@.len() > 0 && part_rank(rel@[0]) == 1) ==> r.shown@ == path_bytes(r@),
{
    let n = rel.parts.len();
    if n > 0 {
        let rank = rank_of(&rel.parts[0]);
        if rank == 1 {
            return rel.duplicate();
        }
    }
    let mut parts: Vec<Vec<u8>> = Vec::new();
    let mut i: usize = 0;
    while i < base.parts.len()
        invariant
            i <= base@.len(),
            base@.len() == base.parts@.len(),
            parts_view(parts@) == base@.take(i as int),
        decreases base.parts.len() - i,
    {
        push_copy(&mut parts, &base.parts[i]);
        i = i + 1;
        assert(parts_view(parts@) =~= base@.take(i as int));
    }
    assert(base@.take(i as int) =~= base@);
    let mut j: usize = 0;
    if n > 0 && base.parts.len() > 0 {
        let rank = rank_of(&rel.parts[0]);
        if rank == 2 {
            j = 1;
        }
    }
    let ghost skip = j as int;
    assert(base@ + rel@.subrange(skip, skip) =~= base@);
    while j < n
        invariant
            0 <= skip <= j <= n,
            n == rel@.len(),
            rel@.len() == rel.parts@.len(),
            parts_view(parts@) == base@ + rel@.subrange(skip, j as int),
        decreases n - j,
    {
        let ghost prev = rel@.subrange(skip, j as int);
        push_copy(&mut parts, &rel.parts[j]);
        assert(rel@.subrange(skip, j + 1) =~= prev.push(rel@[j as int]));
        assert(base@ + prev.push(rel@[j as int]) =~= (base@ + prev).push(rel@[j as int]));
        j = j + 1;
        assert(parts_view(parts@) =~= base@ + rel@.subrange(skip, j as int));
    }
    let r = FsPath::new(parts);
    proof {
        if skip == 1 {
            assert(rel@.subrange(1, n as int) =~= rel@.drop_first());
        } else {
            assert(rel@.subrange(0, n as int) =~= rel@);
        }
    }
    r
}

/// The bytes of a path, its components joined as a path joins them.
pub fn join_parts(parts: &Vec<Vec<u8>>) -> (r: Vec<u8>)
    ensures
        r@ == path_bytes(parts_view(parts@)),
{
    let ghost v = parts_view(parts@);
    let mut out: Vec<u8> = Vec::new();
    let mut i: usize = 0;
    while i < parts.len()
        invariant
            i <= v.len(),
            v.len() == parts@.len(),
            v == parts_view(parts@),
            out@ == path_bytes(v.take(i as int)),
        decreases parts.len() - i,
    {
        let c = &parts[i];
        let rank = rank_of(c);
        let ghost pre = out@;
        assert(v.take(i + 1).drop_last() =~= v.take(i as int));
        assert(v.take(i + 1).last() == c@);
        if rank == 1 {
            out = Vec::new();
            out.push(SEPARATOR);
            assert(out@ =~= root_part());
        } else {
            let n = out.len();
            if n > 0 && out[n - 1] != SEPARATOR {
                out.push(SEPARATOR);
            }
            let ghost mid = out@;
            let mut k: usize = 0;
            while k < c.len()
                invariant
                    k <= c@.len(),
                    out@ == mid + c@.take(k as int),
                decreases c.len() - k,
            {
                out.push(c[k]);
                k = k + 1;
                assert(out@ =~= mid + c@.take(k as int));
            }
            assert(c@.take(k as int) =~= c@);
            proof {
                if pre.len() == 0 {
                    assert(out@ =~= c@);
                } else if pre.last() == SEPARATOR {
                    assert(out@ =~= pre + c@);
                } else {
                    assert(out@ =~= pre + seq![SEPARATOR] + c@);
                }
            }
        }
        i = i + 1;
    }
    assert(v.take(i as int) =~= v);
    out
}

/// The text by which a path is shown.
pub fn display_path(p: &FsPath) -> (r: String)
    ensures
        r@ == shown_text(p.shown@),
{
    text_from_bytes(&p.shown)
}

/// Whether two directories overlap, given the canonical form of each, which
/// is missing where the path could not be resolved; then they do not overlap.
pub fn dirs_overlap(canonical_in: &Option<FsPath>, canonical_out: &Option<FsPath>) -> (r: bool)
    ensures
        r == known_overlap(*canonical_in, *canonical_out),
        match (*canonical_in, *canonical_out) {
            (Some(a), Some(b)) => r <==> (a@.len() <= b@.len() && forall|i: int| 0 <= i < a@.len() ==> b@[i] == a@[i])
                || (b@.len() <= a@.len() && forall|i: int| 0 <= i < b@.len() ==> a@[i] == b@[i]),
            _ => !r,
        },
{
    proof {
        match (canonical_in, canonical_out) {
            (Some(a), Some(b)) => overlap_is_a_prefix_at_any_depth(a@, b@),
            _ => {},
        }
    }
    match (canonical_in, canonical_out) {
        (Some(a), Some(b)) => same_path(a, b) || starts_with(a, b) || starts_with(b, a),
        _ => false,
    }
}

/// A path begins with another exactly when its leading components are the
/// other's, one by one, whatever their number.
pub proof fn prefix_is_leading_components(base: Seq<Seq<u8>>, p: Seq<Seq<u8>>)
    ensures
        is_prefix_of(base, p) <==> base.len() <= p.len() && forall|i: int| 0 <= i < base.len() ==> p[i] == base[i],
{
    if is_prefix_of(base, p) {
        assert forall|i: int| 0 <= i < base.len() implies p[i] == base[i] by {
            assert(p.take(base.len() as int)[i] == p[i]);
        }
    }
    if base.len() <= p.len() && forall|i: int| 0 <= i < base.len() ==> p[i] == base[i] {
        assert(p.take(base.len() as int) =~= base);
    }
}

/// Two directories overlap exactly when the components of one begin those
/// of the other, at any depth: the same directory, one inside the other
/// directly or many levels down.
pub proof fn overlap_is_a_prefix_at_any_depth(a: Seq<Seq<u8>>, b: Seq<Seq<u8>>)
    ensures
        paths_overlap(a, b) <==> (a.len() <= b.len() && forall|i: int| 0 <= i < a.len() ==> b[i] == a[i]) || (
        b.len() <= a.len() && forall|i: int| 0 <= i < b.len() ==> a[i] == b[i]),
{
    prefix_is_leading_components(a, b);
    prefix_is_leading_components(b, a);
    if a == b {
        assert(b.take(a.len() as int) =~= a);
    }
}

/// Two directories overlap exactly when they overlap the other way round,
/// and a directory overlaps itself.
pub proof fn overlap_is_symmetric(a: Seq<Seq<u8>>, b: Seq<Seq<u8>>)
    ensures
        paths_overlap(a, b) == paths_overlap(b, a),
        paths_overlap(a, a),
{
}

/// Whether `j` is the first index at which `s` repeats an earlier element.
pub open spec fn is_first_repeat<A>(s: Seq<A>, j: int) -> bool {
    &&& 0 <= j < s.len()
    &&& distinct_before(s, j)
    &&& exists|i: int| 0 <= i < j && s[i] == s[j]
}

/// Whether two directories, given in canonical form where that form could be
/// had, overlap.
pub open spec fn known_overlap(canonical_a: Option<FsPath>, canonical_b: Option<FsPath>) -> bool {
    match (canonical_a, canonical_b) {
        (Some(a), Some(b)) => paths_overlap(a@, b@),
        _ => false,
    }
}

/// The bytes of a path with a name pushed onto it, as a path pushes a
/// relative name: a separator goes between them unless the path is empty or
/// already ends in one.
pub open spec fn pushed_bytes(base: Seq<u8>, name: Seq<u8>) -> Seq<u8> {
    if base.len() == 0 || base.last() == SEPARATOR {
        base + name
    } else {
        base.push(SEPARATOR) + name
    }
}

/// The path of an entry named `name` in the directory `dir`.
pub fn child_path(dir: &FsPath, name: &Vec<u8>) -> (r: FsPath)
    ensures
        r@ == dir@.push(name@),
        r.shown@ == pushed_bytes(dir.shown@, name@),
{
    let d = dir.duplicate();
    let mut parts = d.parts;
    push_copy(&mut parts, name);
    let mut shown = d.shown;
    let n = shown.len();
    if n > 0 && shown[n - 1] != SEPARATOR {
        shown.push(SEPARATOR);
    }
    let ghost mid = shown@;
    let mut k: usize = 0;
    while k < name.len()
        invariant
            k <= name@.len(),
            shown@ == mid + name@.take(k as int),
        decreases name.len() - k,
    {
        shown.push(name[k]);
        k = k + 1;
        assert(shown@ =~= mid + name@.take(k as int));
    }
    assert(name@.take(k as int) =~= name@);
    proof {
        if !(dir.shown@.len() == 0 || dir.shown@.last() == SEPARATOR) {
            assert(mid == dir.shown@.push(SEPARATOR));
        } else {
            assert(mid == dir.shown@);
        }
    }
    FsPath { parts, shown }
}

} // verus!
