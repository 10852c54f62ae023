//! The token sampler: shrinks a selection to a share of its tokens by taking
//! files in a random order until the share is reached, and draws the tree of
//! the files that were taken.

use crate::path::{path_names, tree_names};
use crate::text::string_of;
use crate::tree::{
    coalesced, grown, has_path, is_leaf_path, is_prefix, leaf, lemma_grown_coalesced, lemma_grown_has_path,
    lemma_grown_keeps_leaves,
    lemma_grown_keeps_paths, lemma_grown_leaves, lemma_grown_new_leaf, lemma_grown_paths, tree_text,
    Shape, TreeNode,
};
use crate::walk::{records, walked, EntryView, FileRecord, Record, TraversalView, Verdict};
use rand::seq::SliceRandom;
use vstd::prelude::*;

verus! {

/// The positions `0, 1, .., n - 1`.
pub open spec fn positions(n: nat) -> Seq<usize> {
    Seq::new(n, |i: int| i as usize)
}

/// Whether `order` is a rearrangement of the positions below `n`.
pub open spec fn is_order(order: Seq<usize>, n: nat) -> bool {
    order.to_multiset() == positions(n).to_multiset()
}

/// Rearranges `order` with `rand`'s `SliceRandom::shuffle`, which only swaps
/// items: the same items are there afterwards, each as often as before.
#[verifier::external_body]
fn shuffle(order: &mut Vec<usize>)
    ensures
        final(order)@.to_multiset() == old(order)@.to_multiset(),
{
    order.shuffle(&mut rand::thread_rng());
}

/// A rearrangement of the positions below `n` has `n` items, each below `n`.
pub proof fn lemma_order_valid(order: Seq<usize>, n: nat)
    requires
        is_order(order, n),
        n <= usize::MAX,
    ensures
        order.len() == n,
        forall|j: int| 0 <= j < order.len() ==> (#[trigger] order[j]) < n,
{
    order.to_multiset_ensures();
    positions(n).to_multiset_ensures();
    assert forall|j: int| 0 <= j < order.len() implies (#[trigger] order[j]) < n by {
        assert(order.contains(order[j]));
        assert(order.to_multiset().count(order[j]) > 0);
        assert(positions(n).to_multiset().count(order[j]) > 0);
        assert(positions(n).contains(order[j]));
        let i = choose|i: int| 0 <= i < positions(n).len() && positions(n)[i] == order[j];
        assert(positions(n)[i] == i as usize);
    }
}

/// The tokens of the first `k` files in the order `order`.
pub open spec fn sum_to(tokens: Seq<usize>, order: Seq<usize>, k: int) -> nat
    decreases k,
{
    if k <= 0 {
        0
    } else {
        sum_to(tokens, order, k - 1) + tokens[order[k - 1] as int] as nat
    }
}

/// The tokens of all files.
pub open spec fn total(tokens: Seq<usize>) -> nat
    decreases tokens.len(),
{
    if tokens.len() == 0 {
        0
    } else {
        total(tokens.drop_last()) + tokens.last() as nat
    }
}

/// The share `rate` percent of `total`, rounded to the nearest whole number,
/// a half upwards.
pub open spec fn target_of(total: nat, rate: nat) -> nat {
    (total * rate + 50) / 100
}

/// The number of files taken from `k` on: files are taken in order until the
/// tokens of those taken reach `target`, or no file is left.
pub open spec fn picked_from(tokens: Seq<usize>, order: Seq<usize>, target: nat, k: int) -> int
    decreases order.len() - k,
{
    if k < 0 || k >= order.len() || sum_to(tokens, order, k) >= target {
        k
    } else {
        picked_from(tokens, order, target, k + 1)
    }
}

/// The number of files taken.
pub open spec fn picked(tokens: Seq<usize>, order: Seq<usize>, target: nat) -> int {
    picked_from(tokens, order, target, 0)
}

/// The files taken: the first `k` in the order `order`.
pub open spec fn chosen(files: Seq<Record>, order: Seq<usize>, k: int) -> Seq<Record> {
    Seq::new(k as nat, |j: int| files[order[j] as int])
}

/// The tree with the root `t` after each of the paths was added, in order.
pub open spec fn planted(t: Shape, files: Seq<Record>) -> Shape
    decreases files.len(),
{
    if files.len() == 0 {
        t
    } else {
        grown(planted(t, files.drop_last()), tree_names(files.last().relative))
    }
}

/// What sampling at `rate` percent hands out: at a hundred or more, the tree
/// and the files as they are; at zero, nothing; else the files taken in the
/// order `order` and the drawing of their tree under the root's label.
pub open spec fn sampled(
    label: Seq<char>,
    tree: Seq<char>,
    files: Seq<Record>,
    tokens: Seq<usize>,
    order: Seq<usize>,
    rate: u8,
) -> (Seq<char>, Seq<Record>) {
    if rate >= 100 {
        (tree, files)
    } else if rate == 0 {
        (Seq::empty(), Seq::empty())
    } else {
        let k = picked(tokens, order, target_of(total(tokens), rate as nat));
        let taken = chosen(files, order, k);
        (tree_text(planted(leaf(label), taken)), taken)
    }
}

/// The number taken lies between `k` and the number of files; the tokens
/// reach the target unless all files are taken; and one file less does not
/// reach it.
pub proof fn lemma_picked_from(tokens: Seq<usize>, order: Seq<usize>, target: nat, k: int)
    requires
        0 <= k <= order.len(),
    ensures
        k <= picked_from(tokens, order, target, k) <= order.len(),
        sum_to(tokens, order, picked_from(tokens, order, target, k)) >= target || picked_from(
            tokens,
            order,
            target,
            k,
        ) == order.len(),
        forall|j: int|
            k <= j < picked_from(tokens, order, target, k) ==> sum_to(tokens, order, j) < target,
    decreases order.len() - k,
{
    if k < order.len() && sum_to(tokens, order, k) < target {
        lemma_picked_from(tokens, order, target, k + 1);
    }
}

/// The tokens of all files, as a number that cannot overflow.
fn count_total(tokens: &Vec<usize>) -> (sum: u128)
    ensures
        sum == total(tokens@),
{
    let mut sum: u128 = 0;
    let mut i: usize = 0;
    proof {
        assert(tokens@.take(0) == Seq::<usize>::empty());
    }
    while i < tokens.len()
        invariant
            i <= tokens.len(),
            sum == total(tokens@.take(i as int)),
            sum <= i * 0xFFFF_FFFF_FFFF_FFFF,
        decreases tokens.len() - i,
    {
        proof {
            assert(tokens@.take(i + 1).drop_last() == tokens@.take(i as int));
            assert(i * 0xFFFF_FFFF_FFFF_FFFF + 0xFFFF_FFFF_FFFF_FFFF <= 0xFFFF_FFFF_FFFF_FFFF
                * 0xFFFF_FFFF_FFFF_FFFF + 0xFFFF_FFFF_FFFF_FFFF) by (nonlinear_arith)
                requires
                    i <= 0xFFFF_FFFF_FFFF_FFFF,
            ;
            assert((i + 1) * 0xFFFF_FFFF_FFFF_FFFF == i * 0xFFFF_FFFF_FFFF_FFFF
                + 0xFFFF_FFFF_FFFF_FFFF) by (nonlinear_arith);
        }
        sum = sum + tokens[i] as u128;
        i += 1;
    }
    proof {
        assert(tokens@.take(tokens.len() as int) == tokens@);
    }
    sum
}

/// The share of `total` at `rate` percent, rounded.
fn share(total: u128, rate: u8) -> (target: u128)
    requires
        rate < 100,
    ensures
        target == target_of(total as nat, rate as nat),
        target <= total,
{
    let whole = total / 100;
    let part = total % 100;
    assert(part * rate <= 9801) by (nonlinear_arith)
        requires
            part < 100,
            rate < 100,
    ;
    assert(whole * rate <= total && (total * rate + 50) / 100 == whole * rate + (part * rate + 50)
        / 100 && whole * rate + (part * rate + 50) / 100 <= total) by (nonlinear_arith)
        requires
            whole == total / 100,
            part == total % 100,
            rate < 100,
    ;
    whole * (rate as u128) + (part * (rate as u128) + 50) / 100
}

/// Samples the selection with the files taken in the order `order`. At a
/// rate of a hundred or more nothing changes; at zero nothing is left; else
/// files are taken in that order until their tokens reach the rounded share
/// of all tokens, and the tree is drawn anew from the files taken.
pub fn sample_in_order(
    label: &str,
    tree: String,
    files: Vec<FileRecord>,
    tokens: &Vec<usize>,
    order: &Vec<usize>,
    rate: u8,
) -> (out: (String, Vec<FileRecord>))
    requires
        tokens.len() == files.len(),
        is_order(order@, files.len() as nat),
    ensures
        (out.0@, records(out.1@)) == sampled(
            label@,
            tree@,
            records(files@),
            tokens@,
            order@,
            rate,
        ),
        rate >= 100 ==> out.0@ == tree@ && records(out.1@) == records(files@),
        rate == 0 ==> out.0@.len() == 0 && out.1.len() == 0,
        0 < rate < 100 ==> sum_to(tokens@, order@, out.1.len() as int) >= target_of(
            total(tokens@),
            rate as nat,
        ),
{
    if rate >= 100 {
        return (tree, files);
    }
    if rate == 0 {
        let none: Vec<FileRecord> = Vec::new();
        assert(records(none@) =~= Seq::<Record>::empty());
        return (String::new(), none);
    }
    proof {
        lemma_order_valid(order@, files.len() as nat);
    }
    let target = share(count_total(tokens), rate);
    let mut root = TreeNode::new(String::from_str(label));
    let mut taken: Vec<FileRecord> = Vec::new();
    let mut sum: u128 = 0;
    let mut k: usize = 0;
    proof {
        assert(records(taken@) =~= chosen(records(files@), order@, 0));
    }
    while k < order.len() && sum < target
        invariant
            k <= order.len(),
            order.len() == files.len(),
            tokens.len() == files.len(),
            forall|j: int| 0 <= j < order.len() ==> (#[trigger] order@[j]) < files.len(),
            sum == sum_to(tokens@, order@, k as int),
            sum <= k * 0xFFFF_FFFF_FFFF_FFFF,
            picked(tokens@, order@, target as nat) == picked_from(
                tokens@,
                order@,
                target as nat,
                k as int,
            ),
            records(taken@) == chosen(records(files@), order@, k as int),
            root@ == planted(leaf(label@), records(taken@)),
        decreases order.len() - k,
    {
        let at = order[k];
        let file = files[at].clone();
        let names = path_names(file.relative.as_str(), false);
        root.add_path(&names);
        let ghost before = records(taken@);
        taken.push(file);
        proof {
            assert(records(taken@) =~= before.push(file@));
            assert(records(taken@).drop_last() == before);
            assert(records(taken@) =~= chosen(records(files@), order@, k + 1));
            assert(k * 0xFFFF_FFFF_FFFF_FFFF + 0xFFFF_FFFF_FFFF_FFFF <= 0xFFFF_FFFF_FFFF_FFFF
                * 0xFFFF_FFFF_FFFF_FFFF + 0xFFFF_FFFF_FFFF_FFFF) by (nonlinear_arith)
                requires
                    k <= 0xFFFF_FFFF_FFFF_FFFF,
            ;
            assert((k + 1) * 0xFFFF_FFFF_FFFF_FFFF == k * 0xFFFF_FFFF_FFFF_FFFF
                + 0xFFFF_FFFF_FFFF_FFFF) by (nonlinear_arith);
        }
        sum = sum + tokens[at] as u128;
        k += 1;
    }
    proof {
        lemma_picked_from(tokens@, order@, target as nat, 0);
        lemma_budget_met(tokens@, order@, rate as nat);
    }
    (root.render(), taken)
}

/// The positions below `n`, in order.
fn first_positions(n: usize) -> (order: Vec<usize>)
    ensures
        order@ == positions(n as nat),
{
    let mut order: Vec<usize> = Vec::new();
    let mut i: usize = 0;
    while i < n
        invariant
            i <= n,
            order@ == positions(i as nat),
        decreases n - i,
    {
        order.push(i);
        assert(order@ =~= positions((i + 1) as nat));
        i += 1;
    }
    order
}

/// Whether `tree` and `taken` are what sampling hands out with the files
/// taken in the order `order`, a rearrangement of their positions; at a rate
/// between zero and a hundred the tokens of the files taken then reach the
/// share.
pub open spec fn is_sample(
    label: Seq<char>,
    tree: Seq<char>,
    files: Seq<Record>,
    tokens: Seq<usize>,
    order: Seq<usize>,
    rate: u8,
    out_tree: Seq<char>,
    taken: Seq<Record>,
) -> bool {
    &&& is_order(order, files.len())
    &&& (out_tree, taken) == sampled(label, tree, files, tokens, order, rate)
    &&& 0 < rate < 100 ==> sum_to(tokens, order, taken.len() as int) >= target_of(
        total(tokens),
        rate as nat,
    )
}

/// Samples the selection at `rate` percent of its tokens, with the files
/// taken in a random order.
pub fn sample(label: &str, tree: String, files: Vec<FileRecord>, tokens: &Vec<usize>, rate: u8)
    -> (out: (String, Vec<FileRecord>))
    requires
        tokens.len() == files.len(),
    ensures
        exists|order: Seq<usize>| #[trigger]
            is_sample(label@, tree@, records(files@), tokens@, order, rate, out.0@, records(out.1@)),
        rate >= 100 ==> out.0@ == tree@ && records(out.1@) == records(files@),
        rate == 0 ==> out.0@.len() == 0 && out.1.len() == 0,
{
    let mut order = first_positions(files.len());
    shuffle(&mut order);
    let out = sample_in_order(label, tree, files, tokens, &order, rate);
    proof {
        assert(is_sample(
            label@,
            tree@,
            records(files@),
            tokens@,
            order@,
            rate,
            out.0@,
            records(out.1@),
        ));
    }
    out
}

/// The tree drawn from files holds every name once at each level.
pub proof fn lemma_planted_coalesced(label: Seq<char>, files: Seq<Record>)
    ensures
        coalesced(planted(leaf(label), files)),
    decreases files.len(),
{
    if files.len() > 0 {
        lemma_planted_coalesced(label, files.drop_last());
        lemma_grown_coalesced(
            planted(leaf(label), files.drop_last()),
            tree_names(files.last().relative),
        );
    }
}

/// The path under which the file `i` stands in the tree.
pub open spec fn names_of(files: Seq<Record>, i: int) -> Seq<Seq<char>> {
    tree_names(files[i].relative)
}

/// No file's path is a proper beginning of another file's path.
pub open spec fn prefix_free(files: Seq<Record>) -> bool {
    forall|i: int, j: int|
        0 <= i < files.len() && 0 <= j < files.len() && is_prefix(
            #[trigger] names_of(files, i),
            #[trigger] names_of(files, j),
        ) ==> names_of(files, i) == names_of(files, j)
}

/// Every file's path leads to a node of the tree drawn from the files.
pub proof fn lemma_planted_has_files(label: Seq<char>, files: Seq<Record>, i: int)
    requires
        0 <= i < files.len(),
    ensures
        has_path(planted(leaf(label), files), names_of(files, i)),
    decreases files.len(),
{
    let before = planted(leaf(label), files.drop_last());
    let last = tree_names(files.last().relative);
    if i == files.len() - 1 {
        lemma_grown_has_path(before, last);
    } else {
        lemma_planted_has_files(label, files.drop_last(), i);
        lemma_grown_keeps_paths(before, last, names_of(files.drop_last(), i));
    }
}

/// Every path to a node below the root of the tree drawn from the files is
/// the beginning of a file's path.
pub proof fn lemma_planted_paths(label: Seq<char>, files: Seq<Record>, q: Seq<Seq<char>>)
    requires
        has_path(planted(leaf(label), files), q),
        q.len() > 0,
    ensures
        exists|i: int| 0 <= i < files.len() && is_prefix(q, #[trigger] names_of(files, i)),
    decreases files.len(),
{
    if files.len() > 0 {
        let before = planted(leaf(label), files.drop_last());
        let last = tree_names(files.last().relative);
        lemma_grown_paths(before, last, q);
        if has_path(before, q) {
            lemma_planted_paths(label, files.drop_last(), q);
            let i = choose|i: int|
                0 <= i < files.drop_last().len() && is_prefix(
                    q,
                    #[trigger] names_of(files.drop_last(), i),
                );
            assert(names_of(files, i) == names_of(files.drop_last(), i));
        } else {
            assert(is_prefix(q, names_of(files, files.len() - 1)));
        }
    }
}

/// Every leaf below the root of the tree drawn from the files is a file:
/// the path to it is the path of one of the files.
pub proof fn lemma_planted_leaves(label: Seq<char>, files: Seq<Record>, q: Seq<Seq<char>>)
    requires
        is_leaf_path(planted(leaf(label), files), q),
        q.len() > 0,
    ensures
        exists|i: int| 0 <= i < files.len() && q == #[trigger] names_of(files, i),
    decreases files.len(),
{
    if files.len() > 0 {
        let before = planted(leaf(label), files.drop_last());
        let last = tree_names(files.last().relative);
        lemma_grown_leaves(before, last, q);
        if q == last {
            assert(q == names_of(files, files.len() - 1));
        } else {
            lemma_planted_leaves(label, files.drop_last(), q);
            let i = choose|i: int|
                0 <= i < files.drop_last().len() && q == #[trigger] names_of(files.drop_last(), i);
            assert(names_of(files, i) == names_of(files.drop_last(), i));
        }
    }
}

/// Every file is a leaf of the tree drawn from the files, where no file's
/// path is a proper beginning of another's.
pub proof fn lemma_planted_files_are_leaves(label: Seq<char>, files: Seq<Record>, i: int)
    requires
        prefix_free(files),
        0 <= i < files.len(),
    ensures
        is_leaf_path(planted(leaf(label), files), names_of(files, i)),
    decreases files.len(),
{
    let earlier = files.drop_last();
    let before = planted(leaf(label), earlier);
    let last = tree_names(files.last().relative);
    let n = files.len() - 1;
    assert(last == names_of(files, n));
    assert forall|a: int, b: int|
        0 <= a < earlier.len() && 0 <= b < earlier.len() && is_prefix(
            #[trigger] names_of(earlier, a),
            #[trigger] names_of(earlier, b),
        ) implies names_of(earlier, a) == names_of(earlier, b) by {
        assert(names_of(files, a) == names_of(earlier, a));
        assert(names_of(files, b) == names_of(earlier, b));
    }
    if i == n {
        assert forall|q: Seq<Seq<char>>| #[trigger] has_path(before, q) && is_prefix(last, q) implies q
            == last by {
            if q.len() == 0 {
                assert(q.take(last.len() as int) =~= q);
            } else {
                lemma_planted_paths(label, earlier, q);
                let j = choose|j: int|
                    0 <= j < earlier.len() && is_prefix(q, #[trigger] names_of(earlier, j));
                let other = names_of(files, j);
                assert(other == names_of(earlier, j));
                assert(is_prefix(last, other)) by {
                    assert(other.take(last.len() as int) =~= other.take(q.len() as int).take(
                        last.len() as int,
                    ));
                }
                assert(last == other);
                assert(q =~= last) by {
                    assert(other.take(q.len() as int) == q);
                    assert(q.len() == last.len());
                    assert(other.take(other.len() as int) =~= other);
                }
            }
        }
        lemma_grown_new_leaf(before, last);
    } else {
        lemma_planted_files_are_leaves(label, earlier, i);
        let mine = names_of(files, i);
        assert(mine == names_of(earlier, i));
        lemma_grown_keeps_leaves(before, last, mine);
    }
}

/// The tokens of the files at the positions `s`, each counted as often as
/// its position occurs.
pub open spec fn sum_at(tokens: Seq<usize>, s: Seq<usize>) -> nat {
    sum_to(tokens, s, s.len() as int)
}

/// The sum over the first `k` positions is the sum over that prefix.
proof fn lemma_sum_prefix(tokens: Seq<usize>, s: Seq<usize>, k: int)
    requires
        0 <= k <= s.len(),
    ensures
        sum_to(tokens, s, k) == sum_at(tokens, s.take(k)),
    decreases k,
{
    if k > 0 {
        lemma_sum_prefix(tokens, s, k - 1);
        lemma_sum_prefix(tokens, s.take(k), k - 1);
        assert(s.take(k).take(k - 1) == s.take(k - 1));
    }
}

/// Taking one position away takes its tokens away.
proof fn lemma_sum_remove(tokens: Seq<usize>, s: Seq<usize>, p: int)
    requires
        0 <= p < s.len(),
    ensures
        sum_at(tokens, s) == sum_at(tokens, s.remove(p)) + tokens[s[p] as int] as nat,
    decreases s.len(),
{
    let n = s.len() as int;
    lemma_sum_prefix(tokens, s, n - 1);
    if p == n - 1 {
        assert(s.remove(p) == s.take(n - 1));
    } else {
        let shorter = s.remove(p);
        lemma_sum_remove(tokens, s.take(n - 1), p);
        lemma_sum_prefix(tokens, shorter, n - 2);
        assert(shorter.take(n - 2) == s.take(n - 1).remove(p));
        assert(shorter[n - 2] == s[n - 1]);
    }
}

/// The sum does not depend on the order of the positions.
proof fn lemma_sum_rearranged(tokens: Seq<usize>, a: Seq<usize>, b: Seq<usize>)
    requires
        a.to_multiset() == b.to_multiset(),
    ensures
        sum_at(tokens, a) == sum_at(tokens, b),
    decreases a.len(),
{
    a.to_multiset_ensures();
    b.to_multiset_ensures();
    if a.len() > 0 {
        let n = a.len() as int;
        let x = a[n - 1];
        assert(a.contains(x));
        assert(a.to_multiset().count(x) > 0);
        assert(b.contains(x));
        let p = choose|p: int| 0 <= p < b.len() && b[p] == x;
        assert(a.remove(n - 1).to_multiset() == a.to_multiset().remove(x));
        assert(b.remove(p).to_multiset() == b.to_multiset().remove(x));
        lemma_sum_rearranged(tokens, a.remove(n - 1), b.remove(p));
        lemma_sum_remove(tokens, a, n - 1);
        lemma_sum_remove(tokens, b, p);
    } else {
        assert(b.len() == 0);
    }
}

/// The sum over the positions in their own order is the sum of the tokens.
proof fn lemma_sum_positions(tokens: Seq<usize>, k: int)
    requires
        0 <= k <= tokens.len(),
        tokens.len() <= usize::MAX,
    ensures
        sum_to(tokens, positions(tokens.len()), k) == total(tokens.take(k)),
    decreases k,
{
    if k > 0 {
        lemma_sum_positions(tokens, k - 1);
        assert(tokens.take(k).drop_last() == tokens.take(k - 1));
        assert(positions(tokens.len())[k - 1] == (k - 1) as usize);
    }
}

/// All files together, taken in any order, have all the tokens.
pub proof fn lemma_order_total(tokens: Seq<usize>, order: Seq<usize>)
    requires
        is_order(order, tokens.len()),
        tokens.len() <= usize::MAX,
    ensures
        sum_to(tokens, order, order.len() as int) == total(tokens),
{
    lemma_sum_rearranged(tokens, order, positions(tokens.len()));
    lemma_sum_positions(tokens, tokens.len() as int);
    assert(tokens.take(tokens.len() as int) == tokens);
}

/// The share never exceeds the whole.
pub proof fn lemma_target_bound(total: nat, rate: nat)
    requires
        rate < 100,
    ensures
        target_of(total, rate) <= total,
{
    assert((total * rate + 50) / 100 <= total) by (nonlinear_arith)
        requires
            rate < 100,
            total >= 0,
    ;
}

/// The files taken reach the share: their tokens are no fewer than the
/// rounded share of all tokens.
pub proof fn lemma_budget_met(tokens: Seq<usize>, order: Seq<usize>, rate: nat)
    requires
        is_order(order, tokens.len()),
        tokens.len() <= usize::MAX,
        rate < 100,
    ensures
        sum_to(tokens, order, picked(tokens, order, target_of(total(tokens), rate))) >= target_of(
            total(tokens),
            rate,
        ),
{
    let target = target_of(total(tokens), rate);
    lemma_order_valid(order, tokens.len());
    lemma_picked_from(tokens, order, target, 0);
    lemma_order_total(tokens, order);
    lemma_target_bound(total(tokens), rate);
}

/// No file among the entries has a path that is a proper beginning of
/// another file's path. This holds of the entries of a directory: what has
/// entries below it is no file.
pub open spec fn files_prefix_free(entries: Seq<EntryView>) -> bool {
    forall|a: int, b: int|
        0 <= a < entries.len() && 0 <= b < entries.len() && !entries[a].is_dir && !entries[b].is_dir
            && is_prefix(
            tree_names((#[trigger] entries[a]).relative),
            tree_names((#[trigger] entries[b]).relative),
        ) ==> tree_names(entries[a].relative) == tree_names(entries[b].relative)
}

/// Every record of a walk that started without records stands for a file
/// among the entries.
pub proof fn lemma_walk_records_are_entries(
    start: TraversalView,
    entries: Seq<EntryView>,
    verdicts: Seq<Verdict>,
    i: int,
)
    requires
        start.files.len() == 0,
        0 <= i < walked(start, entries, verdicts).files.len(),
    ensures
        exists|k: int|
            0 <= k < entries.len() && !(#[trigger] entries[k]).is_dir && entries[k].relative
                == walked(start, entries, verdicts).files[i].relative,
    decreases entries.len(),
{
    if entries.len() > 0 && verdicts.len() == entries.len() {
        let before = walked(start, entries.drop_last(), verdicts.drop_last());
        let after = walked(start, entries, verdicts);
        if i < before.files.len() {
            assert(after.files[i] == before.files[i]);
            lemma_walk_records_are_entries(start, entries.drop_last(), verdicts.drop_last(), i);
            let k = choose|k: int|
                0 <= k < entries.drop_last().len() && !(#[trigger] entries.drop_last()[k]).is_dir
                    && entries.drop_last()[k].relative == before.files[i].relative;
            assert(entries[k] == entries.drop_last()[k]);
        } else {
            let k = entries.len() - 1;
            assert(!entries[k].is_dir && entries[k].relative == after.files[i].relative);
        }
    }
}

/// The records of a walk over the entries of a directory are such that no
/// record's path is a proper beginning of another's.
pub proof fn lemma_walk_prefix_free(
    start: TraversalView,
    entries: Seq<EntryView>,
    verdicts: Seq<Verdict>,
)
    requires
        start.files.len() == 0,
        files_prefix_free(entries),
    ensures
        prefix_free(walked(start, entries, verdicts).files),
{
    let files = walked(start, entries, verdicts).files;
    assert forall|i: int, j: int|
        0 <= i < files.len() && 0 <= j < files.len() && is_prefix(
            #[trigger] names_of(files, i),
            #[trigger] names_of(files, j),
        ) implies names_of(files, i) == names_of(files, j) by {
        lemma_walk_records_are_entries(start, entries, verdicts, i);
        lemma_walk_records_are_entries(start, entries, verdicts, j);
        let a = choose|k: int|
            0 <= k < entries.len() && !(#[trigger] entries[k]).is_dir && entries[k].relative
                == files[i].relative;
        let b = choose|k: int|
            0 <= k < entries.len() && !(#[trigger] entries[k]).is_dir && entries[k].relative
                == files[j].relative;
        assert(is_prefix(tree_names(entries[a].relative), tree_names(entries[b].relative)));
    }
}

/// Files taken from files of which none is a proper beginning of another
/// are such files too.
pub proof fn lemma_chosen_prefix_free(files: Seq<Record>, order: Seq<usize>, k: int)
    requires
        prefix_free(files),
        0 <= k <= order.len(),
        forall|j: int| 0 <= j < order.len() ==> (#[trigger] order[j]) < files.len(),
    ensures
        prefix_free(chosen(files, order, k)),
{
    let taken = chosen(files, order, k);
    assert forall|i: int, j: int|
        0 <= i < taken.len() && 0 <= j < taken.len() && is_prefix(
            #[trigger] names_of(taken, i),
            #[trigger] names_of(taken, j),
        ) implies names_of(taken, i) == names_of(taken, j) by {
        assert(names_of(taken, i) == names_of(files, order[i] as int));
        assert(names_of(taken, j) == names_of(files, order[j] as int));
    }
}

/// Tree fidelity under sampling: of the records of a walk over the entries
/// of a directory, every file that is taken is a leaf of the tree drawn
/// from the files taken.
pub proof fn lemma_sampled_files_are_leaves(
    start: TraversalView,
    entries: Seq<EntryView>,
    verdicts: Seq<Verdict>,
    order: Seq<usize>,
    k: int,
    i: int,
)
    requires
        start.files.len() == 0,
        files_prefix_free(entries),
        is_order(order, walked(start, entries, verdicts).files.len()),
        walked(start, entries, verdicts).files.len() <= usize::MAX,
        0 <= i < k <= order.len(),
    ensures
        is_leaf_path(
            planted(leaf(start.label), chosen(walked(start, entries, verdicts).files, order, k)),
            names_of(chosen(walked(start, entries, verdicts).files, order, k), i),
        ),
{
    let files = walked(start, entries, verdicts).files;
    lemma_walk_prefix_free(start, entries, verdicts);
    lemma_order_valid(order, files.len());
    lemma_chosen_prefix_free(files, order, k);
    lemma_planted_files_are_leaves(start.label, chosen(files, order, k), i);
}

} // verus!
