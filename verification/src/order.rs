//! The order in which the images that repeat along no axis are packed: by
//! category, and within a category the taller first.

use crate::gather::{AssetPath, ImageAsset};
use crate::text::{compare_text, lemma_rank_chains, lemma_rank_turns, text_rank};
use vstd::prelude::*;

verus! {

/// How the category `p` stands to the category `q` from segment `i` on: -1
/// where `p` comes first, 1 where `q` does, 0 where the two agree to the end.
/// Segments are compared as texts, and a category comes before those that it
/// begins.
pub open spec fn category_rank_from(p: Seq<Seq<char>>, q: Seq<Seq<char>>, i: int) -> int
    decreases p.len() - i,
{
    if i < 0 {
        0
    } else if i >= p.len() {
        if i >= q.len() {
            0
        } else {
            -1
        }
    } else if i >= q.len() {
        1
    } else if text_rank(p[i], q[i]) != 0 {
        text_rank(p[i], q[i])
    } else {
        category_rank_from(p, q, i + 1)
    }
}

/// How the category `p` stands to the category `q`.
pub open spec fn category_rank(p: Seq<Seq<char>>, q: Seq<Seq<char>>) -> int {
    category_rank_from(p, q, 0)
}

/// Compares the categories of two identifiers.
pub fn compare_categories(a: &AssetPath, b: &AssetPath) -> (r: i8)
    requires
        a@.len() > 0,
        b@.len() > 0,
    ensures
        r as int == category_rank(a.category(), b.category()),
{
    let p = a.path();
    let q = b.path();
    let ghost ps = a.category();
    let ghost qs = b.category();
    let mut i: usize = 0;
    while i < p.len() && i < q.len()
        invariant
            i <= p@.len(),
            i <= q@.len(),
            ps == a.category(),
            qs == b.category(),
            p@.len() == ps.len(),
            q@.len() == qs.len(),
            forall|k: int| 0 <= k < ps.len() ==> ps[k] == #[trigger] p@[k]@,
            forall|k: int| 0 <= k < qs.len() ==> qs[k] == #[trigger] q@[k]@,
            category_rank(ps, qs) == category_rank_from(ps, qs, i as int),
        decreases p@.len() - i,
    {
        let r = compare_text(p[i].as_str(), q[i].as_str());
        assert(ps[i as int] == p@[i as int]@ && qs[i as int] == q@[i as int]@);
        if r != 0 {
            return r;
        }
        i += 1;
    }
    if i < q.len() {
        -1
    } else if i < p.len() {
        1
    } else {
        0
    }
}

/// Whether `a` is packed before `b` whatever the order in which the two were
/// found: its category comes first, or the two share a category and `a` is
/// the taller.
pub open spec fn goes_first(a: ImageAsset, b: ImageAsset) -> bool {
    let rank = category_rank(a.category(), b.category());
    rank < 0 || (rank == 0 && a.rgba.height > b.rgba.height)
}

/// Decides `goes_first`.
pub fn packs_before(a: &ImageAsset, b: &ImageAsset) -> (r: bool)
    requires
        a.entry.asset_path@.len() > 0,
        b.entry.asset_path@.len() > 0,
    ensures
        r == goes_first(*a, *b),
{
    let rank = compare_categories(&a.entry.asset_path, &b.entry.asset_path);
    rank < 0 || (rank == 0 && a.rgba.height > b.rgba.height)
}

/// The first position at or after `from` in `order` whose image has to wait
/// for image `x`; the length of `order` where there is none.
pub open spec fn slot_for(images: Seq<ImageAsset>, order: Seq<usize>, x: int, from: int) -> int
    decreases order.len() - from,
{
    if from < 0 || from >= order.len() {
        order.len() as int
    } else if goes_first(images[x], images[order[from] as int]) {
        from
    } else {
        slot_for(images, order, x, from + 1)
    }
}

/// The images among the first `n` that repeat along no axis, in the order in
/// which they are packed: each one stands before those that have to wait for
/// it, and behind the others that were found before it.
pub open spec fn general_order(images: Seq<ImageAsset>, n: int) -> Seq<usize>
    decreases n,
{
    if n <= 0 {
        Seq::empty()
    } else {
        let earlier = general_order(images, n - 1);
        if images[n - 1].is_general() {
            earlier.insert(slot_for(images, earlier, n - 1, 0), (n - 1) as usize)
        } else {
            earlier
        }
    }
}

/// Every entry of `order` is the index of an image that repeats along no
/// axis.
pub open spec fn all_general(images: Seq<ImageAsset>, order: Seq<usize>) -> bool {
    forall|k: int|
        0 <= k < order.len() ==> (#[trigger] order[k]) < images.len() && images[order[k] as int].is_general()
}

/// Lists the images that repeat along no axis in the order in which they are
/// packed.
pub fn sort_general(images: &Vec<ImageAsset>) -> (order: Vec<usize>)
    requires
        forall|i: int| 0 <= i < images@.len() ==> (#[trigger] images@[i]).wf(),
    ensures
        order@ == general_order(images@, images@.len() as int),
        all_general(images@, order@),
        in_packing_order(images@, order@),
        forall|i: int|
            0 <= i < images@.len() && (#[trigger] images@[i]).is_general() ==> order@.contains(
                i as usize,
            ),
{
    let count = images.len();
    proof {
        lemma_general_order_sorted(images@, count as int);
    }
    let mut order: Vec<usize> = Vec::new();
    let mut n: usize = 0;
    while n < images.len()
        invariant
            n <= images@.len(),
            forall|i: int| 0 <= i < images@.len() ==> (#[trigger] images@[i]).wf(),
            order@ == general_order(images@, n as int),
            all_general(images@, order@),
            forall|i: int|
                0 <= i < n && (#[trigger] images@[i]).is_general() ==> order@.contains(i as usize),
        decreases images@.len() - n,
    {
        let image = &images[n];
        if !image.no_pack && !image.repeat_x && !image.repeat_y {
            let mut at: usize = 0;
            while at < order.len() && !packs_before(image, &images[order[at]])
                invariant
                    at <= order@.len(),
                    n < images@.len(),
                    image == &images@[n as int],
                    forall|i: int| 0 <= i < images@.len() ==> (#[trigger] images@[i]).wf(),
                    all_general(images@, order@),
                    slot_for(images@, order@, n as int, 0) == slot_for(
                        images@,
                        order@,
                        n as int,
                        at as int,
                    ),
                decreases order@.len() - at,
            {
                at += 1;
            }
            let ghost before = order@;
            order.insert(at, n);
            proof {
                assert forall|i: int|
                    0 <= i < n + 1 && (#[trigger] images@[i]).is_general() implies order@.contains(
                    i as usize,
                ) by {
                    if i < n {
                        let k = choose|k: int| 0 <= k < before.len() && before[k] == i as usize;
                        if k < at {
                            assert(order@[k] == i as usize);
                        } else {
                            assert(order@[k + 1] == i as usize);
                        }
                    } else {
                        assert(order@[at as int] == i as usize);
                    }
                }
            }
        }
        n += 1;
    }
    order
}

/// Turning two categories round turns their rank round.
pub proof fn lemma_category_rank_turns(p: Seq<Seq<char>>, q: Seq<Seq<char>>, i: int)
    requires
        0 <= i,
    ensures
        category_rank_from(q, p, i) == -category_rank_from(p, q, i),
        -1 <= category_rank_from(p, q, i) <= 1,
    decreases p.len() - i,
{
    if i < p.len() && i < q.len() {
        lemma_rank_turns(p[i], q[i], 0);
        if text_rank(p[i], q[i]) == 0 {
            lemma_category_rank_turns(p, q, i + 1);
        }
    }
}

/// The order of categories is transitive: where `p` does not come after `q`,
/// nor `q` after `r`, `p` does not come after `r`; and it comes before `r`
/// where it comes before `q`, or `q` before `r`.
pub proof fn lemma_category_rank_chains(
    p: Seq<Seq<char>>,
    q: Seq<Seq<char>>,
    r: Seq<Seq<char>>,
    i: int,
)
    requires
        0 <= i,
        category_rank_from(p, q, i) <= 0,
        category_rank_from(q, r, i) <= 0,
    ensures
        category_rank_from(p, r, i) <= 0,
        category_rank_from(p, q, i) < 0 || category_rank_from(q, r, i) < 0 ==> category_rank_from(
            p,
            r,
            i,
        ) < 0,
    decreases p.len() - i,
{
    if i < p.len() && i < q.len() && i < r.len() {
        lemma_rank_turns(p[i], q[i], 0);
        lemma_rank_turns(q[i], r[i], 0);
        lemma_rank_turns(p[i], r[i], 0);
        lemma_rank_chains(p[i], q[i], r[i], 0);
        if text_rank(p[i], q[i]) == 0 && text_rank(q[i], r[i]) == 0 {
            lemma_rank_turns(r[i], q[i], 0);
            lemma_rank_turns(q[i], p[i], 0);
            lemma_rank_chains(r[i], q[i], p[i], 0);
            lemma_category_rank_chains(p, q, r, i + 1);
        }
    }
}

/// An image that goes before a second one goes before every image that does
/// not go before the second; and the second does not go before it.
pub proof fn lemma_goes_first_chains(a: ImageAsset, b: ImageAsset, c: ImageAsset)
    requires
        goes_first(a, b),
        !goes_first(c, b),
    ensures
        goes_first(a, c),
        !goes_first(b, a),
{
    lemma_category_rank_turns(a.category(), b.category(), 0);
    lemma_category_rank_turns(c.category(), b.category(), 0);
    lemma_category_rank_turns(a.category(), c.category(), 0);
    lemma_category_rank_chains(a.category(), b.category(), c.category(), 0);
    if category_rank(a.category(), c.category()) == 0 {
        lemma_category_rank_chains(c.category(), a.category(), b.category(), 0);
        lemma_category_rank_turns(b.category(), c.category(), 0);
    }
}

/// No image goes before itself.
pub proof fn lemma_goes_first_not_itself(a: ImageAsset)
    ensures
        !goes_first(a, a),
{
    lemma_category_rank_turns(a.category(), a.category(), 0);
}

/// The entries of `order` stand as they are packed: none goes before one
/// that stands before it, and of two of which neither goes before the other
/// the one that was found first stands first.
pub open spec fn in_packing_order(images: Seq<ImageAsset>, order: Seq<usize>) -> bool {
    forall|a: int, b: int|
        0 <= a < b < order.len() ==> {
            let first = images[(#[trigger] order[a]) as int];
            let second = images[(#[trigger] order[b]) as int];
            !goes_first(second, first) && (goes_first(first, second) || order[a] < order[b])
        }
}

/// Where image `x` is put into `order`: it goes before the entry there, if
/// there is one, and before none of the entries from `from` up to there.
pub proof fn lemma_slot_found(images: Seq<ImageAsset>, order: Seq<usize>, x: int, from: int)
    requires
        0 <= from <= order.len(),
    ensures
        from <= slot_for(images, order, x, from) <= order.len(),
        slot_for(images, order, x, from) < order.len() ==> goes_first(
            images[x],
            images[order[slot_for(images, order, x, from)] as int],
        ),
        forall|k: int|
            from <= k < slot_for(images, order, x, from) ==> !goes_first(
                images[x],
                images[(#[trigger] order[k]) as int],
            ),
    decreases order.len() - from,
{
    if from < order.len() && !goes_first(images[x], images[order[from] as int]) {
        lemma_slot_found(images, order, x, from + 1);
    }
}

/// The images that repeat along no axis are packed by category, within a
/// category the taller first, and images of the same category and height in
/// the order in which they were found. Each of them is listed once, and no
/// other image is.
pub proof fn lemma_general_order_sorted(images: Seq<ImageAsset>, n: int)
    requires
        0 <= n <= images.len(),
        images.len() <= usize::MAX,
    ensures
        in_packing_order(images, general_order(images, n)),
        forall|k: int|
            0 <= k < general_order(images, n).len() ==> (#[trigger] general_order(images, n)[k])
                < n && images[general_order(images, n)[k] as int].is_general(),
        forall|a: int, b: int|
            0 <= a < b < general_order(images, n).len() ==> (#[trigger] general_order(images, n)[a])
                != (#[trigger] general_order(images, n)[b]),
        forall|i: int|
            0 <= i < n && images[i].is_general() ==> general_order(images, n).contains(i as usize),
    decreases n,
{
    if n > 0 {
        lemma_general_order_sorted(images, n - 1);
        let earlier = general_order(images, n - 1);
        let order = general_order(images, n);
        if images[n - 1].is_general() {
            let x = n - 1;
            let at = slot_for(images, earlier, x, 0);
            lemma_slot_found(images, earlier, x, 0);
            assert(order == earlier.insert(at, x as usize));
            assert forall|k: int| 0 <= k < order.len() implies #[trigger] order[k] == if k < at {
                earlier[k]
            } else if k == at {
                x as usize
            } else {
                earlier[k - 1]
            } by {}
            assert forall|a: int, b: int| 0 <= a < b < order.len() implies {
                let first = images[(#[trigger] order[a]) as int];
                let second = images[(#[trigger] order[b]) as int];
                !goes_first(second, first) && (goes_first(first, second) || order[a] < order[b])
            } by {
                if b == at {
                    assert(!goes_first(images[x], images[earlier[a] as int]));
                } else if a == at {
                    assert(goes_first(images[x], images[earlier[at] as int]));
                    lemma_goes_first_not_itself(images[earlier[b - 1] as int]);
                    if b - 1 > at {
                        assert(!goes_first(images[earlier[b - 1] as int], images[earlier[at] as int]));
                    }
                    lemma_goes_first_chains(
                        images[x],
                        images[earlier[at] as int],
                        images[earlier[b - 1] as int],
                    );
                    lemma_goes_first_chains(
                        images[x],
                        images[earlier[b - 1] as int],
                        images[earlier[b - 1] as int],
                    );
                } else {
                    let a0 = if a < at {
                        a
                    } else {
                        a - 1
                    };
                    let b0 = if b < at {
                        b
                    } else {
                        b - 1
                    };
                    assert(!goes_first(images[earlier[b0] as int], images[earlier[a0] as int]));
                }
            }
            assert forall|i: int| 0 <= i < n && images[i].is_general() implies order.contains(
                i as usize,
            ) by {
                if i < x {
                    let k = choose|k: int| 0 <= k < earlier.len() && earlier[k] == i as usize;
                    if k < at {
                        assert(order[k] == i as usize);
                    } else {
                        assert(order[k + 1] == i as usize);
                    }
                } else {
                    assert(order[at] == i as usize);
                }
            }
        } else {
            assert forall|i: int| 0 <= i < n && images[i].is_general() implies order.contains(
                i as usize,
            ) by {
                let k = choose|k: int| 0 <= k < earlier.len() && earlier[k] == i as usize;
                assert(order[k] == i as usize);
            }
        }
    }
}

} // verus!
