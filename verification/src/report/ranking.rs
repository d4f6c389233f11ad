//! Directories in order of size.
use crate::report::human::{lines, DirLine, Line};
use vstd::prelude::*;
use vstd::utf8::encode_utf8;

verus! {

/// Whether `a` stands before `b` or is `b` in the order of byte strings, given
/// that they agree up to `k`.
pub open spec fn bytes_in_order(a: Seq<u8>, b: Seq<u8>, k: int) -> bool
    decreases a.len() - k,
{
    if k >= a.len() {
        true
    } else if k >= b.len() {
        false
    } else if a[k] != b[k] {
        a[k] < b[k]
    } else {
        bytes_in_order(a, b, k + 1)
    }
}

/// Whether `a` may be listed before `b`: larger directories come first, and
/// directories of one size in the order of their paths.
pub open spec fn in_order(a: Line, b: Line) -> bool {
    a.size > b.size || (a.size == b.size && bytes_in_order(
        encode_utf8(a.path),
        encode_utf8(b.path),
        0,
    ))
}

proof fn lemma_bytes_total(a: Seq<u8>, b: Seq<u8>, k: int)
    ensures
        bytes_in_order(a, b, k) || bytes_in_order(b, a, k),
    decreases a.len() - k,
{
    if k < a.len() && k < b.len() && a[k] == b[k] {
        lemma_bytes_total(a, b, k + 1);
    }
}

proof fn lemma_bytes_transitive(a: Seq<u8>, b: Seq<u8>, c: Seq<u8>, k: int)
    requires
        bytes_in_order(a, b, k),
        bytes_in_order(b, c, k),
    ensures
        bytes_in_order(a, c, k),
    decreases a.len() - k,
{
    if k < a.len() && k < b.len() && k < c.len() && a[k] == b[k] && b[k] == c[k] {
        lemma_bytes_transitive(a, b, c, k + 1);
    }
}

/// Of any two directories, one may be listed before the other.
pub proof fn lemma_order_is_total(a: Line, b: Line)
    ensures
        in_order(a, b) || in_order(b, a),
{
    lemma_bytes_total(encode_utf8(a.path), encode_utf8(b.path), 0);
}

pub proof fn lemma_order_is_transitive(a: Line, b: Line, c: Line)
    requires
        in_order(a, b),
        in_order(b, c),
    ensures
        in_order(a, c),
{
    if a.size == b.size && b.size == c.size {
        lemma_bytes_transitive(encode_utf8(a.path), encode_utf8(b.path), encode_utf8(c.path), 0);
    }
}

/// Whether positions in a list are given in the order of what stands there.
pub open spec fn is_ordered(list: Seq<Line>, order: Seq<usize>) -> bool {
    forall|i: int, j: int|
        #![trigger order[i], order[j]]
        0 <= i <= j < order.len() ==> in_order(list[order[i] as int], list[order[j] as int])
}

/// Whether `order` holds each position of the list once, in order.
pub open spec fn is_ranking(list: Seq<Line>, order: Seq<usize>) -> bool {
    &&& order.len() == list.len()
    &&& order.no_duplicates()
    &&& forall|i: int| 0 <= i < order.len() ==> (#[trigger] order[i]) < list.len()
    &&& is_ordered(list, order)
}

fn are_bytes_in_order(a: &[u8], b: &[u8]) -> (ordered: bool)
    ensures
        ordered == bytes_in_order(a@, b@, 0),
{
    let mut k: usize = 0;
    while k < a.len()
        invariant
            k <= a@.len(),
            bytes_in_order(a@, b@, 0) == bytes_in_order(a@, b@, k as int),
        decreases a@.len() - k,
    {
        if k >= b.len() {
            return false;
        }
        if a[k] != b[k] {
            return a[k] < b[k];
        }
        k = k + 1;
    }
    true
}

fn are_in_order(a: &DirLine, b: &DirLine) -> (ordered: bool)
    ensures
        ordered == in_order(a@, b@),
{
    if a.size != b.size {
        a.size > b.size
    } else {
        are_bytes_in_order(a.path.as_str().as_bytes(), b.path.as_str().as_bytes())
    }
}

/// Whether all positions lie in the list.
spec fn in_range(list: Seq<Line>, order: Seq<usize>) -> bool {
    forall|i: int| 0 <= i < order.len() ==> (#[trigger] order[i]) < list.len()
}

/// Whether everything in `front` may be listed before `order` from `k` on.
spec fn all_before(list: Seq<Line>, front: Seq<usize>, order: Seq<usize>, k: int) -> bool {
    forall|i: int, j: int|
        #![trigger front[i], order[j]]
        0 <= i < front.len() && k <= j < order.len() ==> in_order(
            list[front[i] as int],
            list[order[j] as int],
        )
}

/// One step of a merge: the next of `a` is taken, `b` has to wait.
proof fn lemma_take_next(
    list: Seq<Line>,
    merged: Seq<usize>,
    a: Seq<usize>,
    i: int,
    b: Seq<usize>,
    j: int,
)
    requires
        0 <= i < a.len(),
        0 <= j <= b.len(),
        is_ordered(list, a),
        is_ordered(list, b),
        is_ordered(list, merged),
        all_before(list, merged, a, i),
        all_before(list, merged, b, j),
        j < b.len() ==> in_order(list[a[i] as int], list[b[j] as int]),
    ensures
        is_ordered(list, merged.push(a[i])),
        all_before(list, merged.push(a[i]), a, i + 1),
        all_before(list, merged.push(a[i]), b, j),
{
    let grown = merged.push(a[i]);
    assert(in_order(list[a[i] as int], list[a[i] as int])) by {
        lemma_order_is_total(list[a[i] as int], list[a[i] as int]);
    }
    assert forall|x: int, y: int|
        #![trigger grown[x], grown[y]]
        0 <= x <= y < grown.len() implies in_order(
        list[grown[x] as int],
        list[grown[y] as int],
    ) by {
        if y < merged.len() {
            assert(grown[x] == merged[x] && grown[y] == merged[y]);
        } else if x < merged.len() {
            assert(grown[x] == merged[x] && grown[y] == a[i]);
        }
    }
    assert forall|x: int, y: int|
        #![trigger grown[x], a[y]]
        0 <= x < grown.len() && i + 1 <= y < a.len() implies in_order(
        list[grown[x] as int],
        list[a[y] as int],
    ) by {
        if x < merged.len() {
            assert(grown[x] == merged[x]);
        } else {
            assert(grown[x] == a[i]);
        }
    }
    assert forall|x: int, y: int|
        #![trigger grown[x], b[y]]
        0 <= x < grown.len() && j <= y < b.len() implies in_order(
        list[grown[x] as int],
        list[b[y] as int],
    ) by {
        if x < merged.len() {
            assert(grown[x] == merged[x]);
        } else {
            assert(grown[x] == a[i]);
            assert(in_order(list[b[j] as int], list[b[y] as int]));
            lemma_order_is_transitive(
                list[a[i] as int],
                list[b[j] as int],
                list[b[y] as int],
            );
        }
    }
}

fn merge(list: &Vec<DirLine>, a: &Vec<usize>, b: &Vec<usize>) -> (merged: Vec<usize>)
    requires
        in_range(lines(list@), a@),
        in_range(lines(list@), b@),
        is_ordered(lines(list@), a@),
        is_ordered(lines(list@), b@),
    ensures
        is_ordered(lines(list@), merged@),
        merged@.to_multiset() == a@.to_multiset().add(b@.to_multiset()),
{
    let ghost all = lines(list@);
    let mut merged: Vec<usize> = Vec::new();
    let mut i: usize = 0;
    let mut j: usize = 0;
    proof {
        assert(a@.take(0) =~= Seq::empty());
        assert(b@.take(0) =~= Seq::empty());
        assert((Seq::<usize>::empty() + Seq::<usize>::empty()) =~= Seq::empty());
        vstd::seq_lib::lemma_multiset_commutative(Seq::<usize>::empty(), Seq::<usize>::empty());
    }
    while i < a.len() || j < b.len()
        invariant
            all == lines(list@),
            in_range(all, a@),
            in_range(all, b@),
            is_ordered(all, a@),
            is_ordered(all, b@),
            i <= a@.len(),
            j <= b@.len(),
            is_ordered(all, merged@),
            all_before(all, merged@, a@, i as int),
            all_before(all, merged@, b@, j as int),
            merged@.to_multiset() == a@.take(i as int).to_multiset().add(
                b@.take(j as int).to_multiset(),
            ),
        decreases a@.len() - i + b@.len() - j,
    {
        let ghost before = merged@;
        let from_a = if i >= a.len() {
            false
        } else if j >= b.len() {
            true
        } else {
            let x: usize = a[i];
            let y: usize = b[j];
            assert(all[x as int] == list@[x as int]@ && all[y as int] == list@[y as int]@);
            are_in_order(&list[x], &list[y])
        };
        if from_a {
            proof {
                lemma_take_next(all, merged@, a@, i as int, b@, j as int);
                vstd::seq_lib::to_multiset_build(before, a@[i as int]);
                vstd::seq_lib::to_multiset_build(a@.take(i as int), a@[i as int]);
                assert(a@.take(i + 1) =~= a@.take(i as int).push(a@[i as int]));
            }
            merged.push(a[i]);
            i = i + 1;
        } else {
            proof {
                if i < a@.len() {
                    lemma_order_is_total(
                        all[a@[i as int] as int],
                        all[b@[j as int] as int],
                    );
                }
                lemma_take_next(all, merged@, b@, j as int, a@, i as int);
                vstd::seq_lib::to_multiset_build(before, b@[j as int]);
                vstd::seq_lib::to_multiset_build(b@.take(j as int), b@[j as int]);
                assert(b@.take(j + 1) =~= b@.take(j as int).push(b@[j as int]));
            }
            merged.push(b[j]);
            j = j + 1;
        }
        assert(merged@.to_multiset() =~= a@.take(i as int).to_multiset().add(
            b@.take(j as int).to_multiset(),
        ));
    }
    assert(a@.take(i as int) =~= a@);
    assert(b@.take(j as int) =~= b@);
    merged
}

/// The positions of `part`, in order.
fn sort_positions(list: &Vec<DirLine>, part: &[usize]) -> (sorted: Vec<usize>)
    requires
        in_range(lines(list@), part@),
    ensures
        is_ordered(lines(list@), sorted@),
        sorted@.to_multiset() == part@.to_multiset(),
    decreases part@.len(),
{
    let ghost all = lines(list@);
    let len: usize = part.len();
    if len <= 1 {
        let sorted = vstd::slice::slice_to_vec(part);
        proof {
            if len == 1 {
                lemma_order_is_total(all[part@[0] as int], all[part@[0] as int]);
            }
        }
        return sorted;
    }
    let middle: usize = len / 2;
    let front = vstd::slice::slice_subrange(part, 0, middle);
    let back = vstd::slice::slice_subrange(part, middle, len);
    let a = sort_positions(list, front);
    let b = sort_positions(list, back);
    proof {
        lemma_range_kept(all, front@, a@);
        lemma_range_kept(all, back@, b@);
        assert(front@ + back@ =~= part@);
        vstd::seq_lib::lemma_multiset_commutative(front@, back@);
    }
    merge(list, &a, &b)
}

proof fn lemma_range_kept(list: Seq<Line>, a: Seq<usize>, b: Seq<usize>)
    requires
        in_range(list, a),
        a.to_multiset() == b.to_multiset(),
    ensures
        in_range(list, b),
{
    assert forall|i: int| 0 <= i < b.len() implies (#[trigger] b[i]) < list.len() by {
        vstd::seq_lib::to_multiset_contains(b, b[i]);
        vstd::seq_lib::to_multiset_contains(a, b[i]);
        assert(b.contains(b[i]));
        let j = choose|j: int| 0 <= j < a.len() && a[j] == b[i];
        assert(a[j] < list.len());
    }
}

/// The positions of a list in the order of what stands there.
pub fn rank(list: &Vec<DirLine>) -> (order: Vec<usize>)
    ensures
        is_ranking(lines(list@), order@),
{
    let ghost all = lines(list@);
    let mut positions: Vec<usize> = Vec::new();
    let mut i: usize = 0;
    while i < list.len()
        invariant
            i <= list@.len(),
            positions@.len() == i,
            forall|k: int| 0 <= k < i ==> positions@[k] == k,
        decreases list@.len() - i,
    {
        positions.push(i);
        i = i + 1;
    }
    let order = sort_positions(list, positions.as_slice());
    proof {
        lemma_range_kept(all, positions@, order@);
        vstd::seq_lib::to_multiset_len(positions@);
        vstd::seq_lib::to_multiset_len(order@);
        positions@.lemma_multiset_has_no_duplicates();
        order@.lemma_multiset_has_no_duplicates_conv();
    }
    order
}

/// The lines at the first `n` places of an order, or all if there are fewer.
pub open spec fn first_lines(list: Seq<Line>, order: Seq<usize>, n: nat) -> Seq<Line> {
    Seq::new(
        if n < order.len() {
            n
        } else {
            order.len()
        },
        |i: int| list[order[i] as int],
    )
}

/// The first `n` directories in order.
pub fn top_dirs(list: &Vec<DirLine>, n: usize) -> (top: Vec<DirLine>)
    ensures
        exists|order: Seq<usize>|
            #![trigger is_ranking(lines(list@), order)]
            is_ranking(lines(list@), order) && lines(top@) == first_lines(
                lines(list@),
                order,
                n as nat,
            ),
{
    let order = rank(list);
    let ghost all = lines(list@);
    let mut top: Vec<DirLine> = Vec::new();
    assert(lines(top@) =~= first_lines(all, order@, 0));
    while top.len() < n && top.len() < order.len()
        invariant
            all == lines(list@),
            is_ranking(all, order@),
            top@.len() <= n,
            top@.len() <= order@.len(),
            lines(top@) == first_lines(all, order@, top@.len()),
        decreases order@.len() - top@.len(),
    {
        let ghost before = top@;
        let k: usize = order[top.len()];
        let line = &list[k];
        top.push(DirLine { size: line.size, path: line.path.clone() });
        assert(lines(top@) =~= lines(before).push(all[k as int]));
        assert(lines(top@) =~= first_lines(all, order@, top@.len()));
    }
    assert(lines(top@) =~= first_lines(all, order@, n as nat));
    top
}

proof fn lemma_bytes_antisymmetric(a: Seq<u8>, b: Seq<u8>, k: int)
    requires
        0 <= k <= a.len(),
        k <= b.len(),
        a.take(k) == b.take(k),
        bytes_in_order(a, b, k),
        bytes_in_order(b, a, k),
    ensures
        a == b,
    decreases a.len() - k,
{
    if k < a.len() && k < b.len() {
        assert(a.take(k + 1) =~= a.take(k).push(a[k]));
        assert(b.take(k + 1) =~= b.take(k).push(b[k]));
        lemma_bytes_antisymmetric(a, b, k + 1);
    } else {
        assert(a.take(k) =~= a);
        assert(b.take(k) =~= b);
    }
}

/// Only equal lines may be listed either way.
pub proof fn lemma_order_is_antisymmetric(a: Line, b: Line)
    requires
        in_order(a, b),
        in_order(b, a),
    ensures
        a == b,
{
    let x = encode_utf8(a.path);
    let y = encode_utf8(b.path);
    assert(x.take(0) =~= y.take(0));
    lemma_bytes_antisymmetric(x, y, 0);
    vstd::utf8::encode_utf8_decode_utf8(a.path);
    vstd::utf8::encode_utf8_decode_utf8(b.path);
}

/// What the first ranking has at a place may be listed before what the second
/// has there.
proof fn lemma_ranking_not_after(list: Seq<Line>, a: Seq<usize>, b: Seq<usize>, i: int)
    requires
        is_ranking(list, a),
        is_ranking(list, b),
        0 <= i < list.len(),
    ensures
        in_order(list[a[i] as int], list[b[i] as int]),
{
    let front = a.take(i).to_set();
    let first = b.take(i + 1);
    let upto = first.to_set();
    vstd::seq_lib::seq_to_set_is_finite(a.take(i));
    a.take(i).lemma_cardinality_of_set();
    assert(first.no_duplicates()) by {
        assert forall|x: int, y: int|
            0 <= x < first.len() && 0 <= y < first.len() && x != y implies first[x]
            != first[y] by {
            assert(first[x] == b[x] && first[y] == b[y]);
        }
    }
    first.unique_seq_to_set();
    if upto.subset_of(front) {
        vstd::set_lib::lemma_len_subset(upto, front);
    }
    let p = choose|p: usize| upto.contains(p) && !front.contains(p);
    assert(upto.contains(p) && !front.contains(p));
    assert(first.contains(p));
    let y = choose|y: int| 0 <= y < first.len() && first[y] == p;
    assert(b[y] == p);
    lemma_ranking_holds_all(list, a, p);
    let x = choose|x: int| 0 <= x < a.len() && a[x] == p;
    if x < i {
        assert(a.take(i)[x] == p);
        assert(front.contains(p));
    }
    assert(in_order(list[a[i] as int], list[a[x] as int]));
    assert(in_order(list[b[y] as int], list[b[i] as int]));
    lemma_order_is_transitive(list[a[i] as int], list[p as int], list[b[i] as int]);
}

/// A ranking holds every position.
pub(crate) proof fn lemma_ranking_holds_all(list: Seq<Line>, a: Seq<usize>, p: usize)
    requires
        is_ranking(list, a),
        p < list.len(),
    ensures
        a.contains(p),
{
    if !a.contains(p) {
        let more = a.push(p);
        assert(more.no_duplicates()) by {
            assert forall|x: int, y: int|
                0 <= x < more.len() && 0 <= y < more.len() && x != y implies more[x] != more[y] by {
                if x < a.len() && y < a.len() {
                    assert(a[x] != a[y]);
                } else if x < a.len() {
                    assert(a.contains(a[x]));
                } else {
                    assert(a.contains(a[y]));
                }
            }
        }
        assert forall|x: int| 0 <= x < more.len() implies (#[trigger] more[x]) < list.len() by {
            if x < a.len() {
                assert(more[x] == a[x]);
            }
        }
        lemma_no_more_than(more, list.len());
    }
}

/// Distinct numbers below `n` are at most `n`.
pub(crate) proof fn lemma_no_more_than(s: Seq<usize>, n: nat)
    requires
        s.no_duplicates(),
        forall|i: int| 0 <= i < s.len() ==> (#[trigger] s[i]) < n,
    ensures
        s.len() <= n,
{
    let ints = s.map_values(|x: usize| x as int);
    assert(ints.no_duplicates()) by {
        assert forall|x: int, y: int|
            0 <= x < ints.len() && 0 <= y < ints.len() && x != y implies ints[x] != ints[y] by {
            assert(s[x] != s[y]);
        }
    }
    ints.unique_seq_to_set();
    vstd::set_lib::lemma_int_range(0, n as int);
    assert(ints.to_set().subset_of(vstd::set_lib::set_int_range(0, n as int))) by {
        assert forall|v: int| ints.to_set().contains(v) implies vstd::set_lib::set_int_range(
            0,
            n as int,
        ).contains(v) by {
            let x = choose|x: int| 0 <= x < ints.len() && ints[x] == v;
            assert(s[x] < n);
        }
    }
    vstd::set_lib::lemma_len_subset(ints.to_set(), vstd::set_lib::set_int_range(0, n as int));
}

/// There is one order only: whatever ranking a list is printed by, the same
/// line stands at each place.
pub proof fn law_order_is_unique(list: Seq<Line>, a: Seq<usize>, b: Seq<usize>, n: nat)
    requires
        is_ranking(list, a),
        is_ranking(list, b),
    ensures
        first_lines(list, a, n) == first_lines(list, b, n),
{
    assert forall|i: int| 0 <= i < list.len() implies list[#[trigger] a[i] as int]
        == list[b[i] as int] by {
        lemma_ranking_not_after(list, a, b, i);
        lemma_ranking_not_after(list, b, a, i);
        lemma_order_is_antisymmetric(list[a[i] as int], list[b[i] as int]);
    }
    assert forall|i: int| 0 <= i < first_lines(list, a, n).len() implies first_lines(
        list,
        a,
        n,
    )[i] == first_lines(list, b, n)[i] by {
        assert(list[a[i] as int] == list[b[i] as int]);
    }
    assert(first_lines(list, a, n) =~= first_lines(list, b, n));
}

/// The directories that are listed are no smaller than those that are not.
pub proof fn law_top_is_largest(list: Seq<Line>, order: Seq<usize>, n: nat, i: int, j: int)
    requires
        is_ranking(list, order),
        0 <= i < n <= j < list.len(),
    ensures
        first_lines(list, order, n)[i].size >= list[order[j] as int].size,
{
    assert(in_order(list[order[i] as int], list[order[j] as int]));
}

} // verus!
