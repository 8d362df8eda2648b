//! Deterministic total ordering of packable items, and the sorter that
//! imposes it before any geometry decision is made. The order compares a
//! primary key — descending area, descending longest side, or ascending
//! name — and always breaks ties by ascending name, so equal inputs sort
//! identically on every run and sorting a sorted sequence changes nothing.

use vstd::prelude::*;

use crate::config::PackSort;
use crate::pack::{Packer, PackableItem};
use crate::text::{lemma_lex_lt_transitive, lemma_lex_lt_trichotomy, lex_lt, str_lt};

verus! {

/// The name the order ties by.
pub open spec fn item_name(item: PackableItem) -> Seq<char> {
    item.spec_sprite().name@
}

/// Pixel area of the representative sprite.
pub open spec fn item_area(item: PackableItem) -> int {
    item.spec_sprite().size.width * item.spec_sprite().size.height
}

/// Longest side of the representative sprite.
pub open spec fn item_max_side(item: PackableItem) -> int {
    let s = item.spec_sprite().size;
    if s.width >= s.height {
        s.width as int
    } else {
        s.height as int
    }
}

/// `a` packs strictly before `b`: larger primary key first for area and
/// longest side, ascending for names, with an ascending-name tiebreak.
pub open spec fn item_lt(sort: PackSort, a: PackableItem, b: PackableItem) -> bool {
    match sort {
        PackSort::Area => item_area(a) > item_area(b) || (item_area(a) == item_area(b) && lex_lt(
            item_name(a),
            item_name(b),
        )),
        PackSort::MaxSide => item_max_side(a) > item_max_side(b) || (item_max_side(a)
            == item_max_side(b) && lex_lt(item_name(a), item_name(b))),
        PackSort::Name => lex_lt(item_name(a), item_name(b)),
    }
}

/// `a` packs no later than `b`.
pub open spec fn item_le(sort: PackSort, a: PackableItem, b: PackableItem) -> bool {
    !item_lt(sort, b, a)
}

/// The primary keys of `a` and `b` do not differ.
pub open spec fn primary_tie(sort: PackSort, a: PackableItem, b: PackableItem) -> bool {
    match sort {
        PackSort::Area => item_area(a) == item_area(b),
        PackSort::MaxSide => item_max_side(a) == item_max_side(b),
        PackSort::Name => true,
    }
}

/// No two items pack strictly before each other.
pub proof fn lemma_item_lt_asymmetric(sort: PackSort, a: PackableItem, b: PackableItem)
    ensures
        !(item_lt(sort, a, b) && item_lt(sort, b, a)),
{
    lemma_lex_lt_trichotomy(item_name(a), item_name(b));
}

/// The strict order is transitive.
pub proof fn lemma_item_lt_transitive(
    sort: PackSort,
    a: PackableItem,
    b: PackableItem,
    c: PackableItem,
)
    requires
        item_lt(sort, a, b),
        item_lt(sort, b, c),
    ensures
        item_lt(sort, a, c),
{
    if lex_lt(item_name(a), item_name(b)) && lex_lt(item_name(b), item_name(c)) {
        lemma_lex_lt_transitive(item_name(a), item_name(b), item_name(c));
    }
}

/// Every pair of positions is ordered.
pub open spec fn is_sorted(sort: PackSort, s: Seq<PackableItem>) -> bool {
    forall|i: int, j: int|
        0 <= i < j < s.len() ==> item_le(sort, #[trigger] s[i], #[trigger] s[j])
}

/// `x` inserted into `t` just before the first element it packs strictly
/// before.
pub open spec fn insert_sorted(sort: PackSort, x: PackableItem, t: Seq<PackableItem>) -> Seq<
    PackableItem,
>
    decreases t.len(),
{
    if t.len() == 0 {
        seq![x]
    } else if item_lt(sort, x, t[0]) {
        seq![x] + t
    } else {
        seq![t[0]] + insert_sorted(sort, x, t.drop_first())
    }
}

/// The full sort: each element inserted, in order, into the sorted run of
/// those before it. This is the one order the sorter may produce.
pub open spec fn sort_spec(sort: PackSort, s: Seq<PackableItem>) -> Seq<PackableItem>
    decreases s.len(),
{
    if s.len() == 0 {
        Seq::empty()
    } else {
        insert_sorted(sort, s.last(), sort_spec(sort, s.drop_last()))
    }
}

/// Inserting into a sorted run keeps it sorted, grows it by one, and adds
/// exactly the inserted item.
proof fn lemma_insert_sorted_props(sort: PackSort, x: PackableItem, t: Seq<PackableItem>)
    requires
        is_sorted(sort, t),
    ensures
        is_sorted(sort, insert_sorted(sort, x, t)),
        insert_sorted(sort, x, t).len() == t.len() + 1,
        insert_sorted(sort, x, t).to_multiset() =~= t.to_multiset().insert(x),
    decreases t.len(),
{
    broadcast use vstd::seq_lib::to_multiset_insert;
    broadcast use vstd::seq_lib::to_multiset_contains;
    broadcast use vstd::multiset::group_multiset_axioms;

    let res = insert_sorted(sort, x, t);
    if t.len() == 0 {
        assert(res =~= t.insert(0, x));
    } else if item_lt(sort, x, t[0]) {
        assert forall|i: int, j: int| 0 <= i < j < res.len() implies item_le(
            sort,
            #[trigger] res[i],
            #[trigger] res[j],
        ) by {
            if i == 0 {
                assert(res[j] == t[j - 1]);
                if item_lt(sort, t[j - 1], x) {
                    lemma_item_lt_transitive(sort, t[j - 1], x, t[0]);
                    if j - 1 == 0 {
                        lemma_item_lt_asymmetric(sort, t[0], x);
                    } else {
                        assert(item_le(sort, t[0], t[j - 1]));
                    }
                }
            } else {
                assert(res[i] == t[i - 1]);
                assert(res[j] == t[j - 1]);
                assert(item_le(sort, t[i - 1], t[j - 1]));
            }
        }
        assert(res =~= t.insert(0, x));
    } else {
        let rest = t.drop_first();
        assert forall|i: int, j: int| 0 <= i < j < rest.len() implies item_le(
            sort,
            #[trigger] rest[i],
            #[trigger] rest[j],
        ) by {
            assert(rest[i] == t[i + 1]);
            assert(rest[j] == t[j + 1]);
            assert(item_le(sort, t[i + 1], t[j + 1]));
        }
        lemma_insert_sorted_props(sort, x, rest);
        let res2 = insert_sorted(sort, x, rest);
        assert(res == seq![t[0]] + res2);
        assert forall|i: int, j: int| 0 <= i < j < res.len() implies item_le(
            sort,
            #[trigger] res[i],
            #[trigger] res[j],
        ) by {
            if i == 0 {
                let y = res[j];
                assert(y == res2[j - 1]);
                assert(res2.contains(y));
                assert(res2.to_multiset().count(y) > 0);
                if y == x {
                    assert(item_le(sort, t[0], y));
                } else {
                    assert(rest.to_multiset().count(y) > 0);
                    assert(rest.contains(y));
                    let k = choose|k: int| 0 <= k < rest.len() && rest[k] == y;
                    assert(rest[k] == t[k + 1]);
                    assert(item_le(sort, t[0], t[k + 1]));
                }
            } else {
                assert(res[i] == res2[i - 1]);
                assert(res[j] == res2[j - 1]);
                assert(item_le(sort, res2[i - 1], res2[j - 1]));
            }
        }
        assert(res =~= res2.insert(0, t[0]));
        assert(t =~= rest.insert(0, t[0]));
        assert(res.to_multiset() =~= res2.to_multiset().insert(t[0]));
        assert(t.to_multiset() =~= rest.to_multiset().insert(t[0]));
        assert(rest.to_multiset().insert(x).insert(t[0]) =~= rest.to_multiset().insert(
            t[0],
        ).insert(x));
    }
}

/// The sort yields a sorted permutation of its input.
pub proof fn lemma_sort_spec_props(sort: PackSort, s: Seq<PackableItem>)
    ensures
        is_sorted(sort, sort_spec(sort, s)),
        sort_spec(sort, s).len() == s.len(),
        sort_spec(sort, s).to_multiset() =~= s.to_multiset(),
    decreases s.len(),
{
    broadcast use vstd::seq_lib::to_multiset_build;
    broadcast use vstd::multiset::group_multiset_axioms;

    if s.len() == 0 {
        assert(sort_spec(sort, s) =~= Seq::<PackableItem>::empty());
        assert(s =~= Seq::<PackableItem>::empty());
    } else {
        let dl = s.drop_last();
        lemma_sort_spec_props(sort, dl);
        lemma_insert_sorted_props(sort, s.last(), sort_spec(sort, dl));
        assert(s =~= dl.push(s.last()));
        assert(dl.push(s.last()).to_multiset() =~= dl.to_multiset().insert(s.last()));
    }
}

/// Inserting an element that a sorted run already ends no later than
/// appends it.
proof fn lemma_insert_at_end(sort: PackSort, x: PackableItem, t: Seq<PackableItem>)
    requires
        is_sorted(sort, t.push(x)),
    ensures
        insert_sorted(sort, x, t) =~= t.push(x),
    decreases t.len(),
{
    if t.len() == 0 {
        assert(insert_sorted(sort, x, t) =~= t.push(x));
    } else {
        assert(t.push(x)[0] == t[0]);
        assert(t.push(x)[t.len() as int] == x);
        assert(item_le(sort, t[0], x));
        let rest = t.drop_first();
        assert forall|i: int, j: int| 0 <= i < j < rest.push(x).len() implies item_le(
            sort,
            #[trigger] rest.push(x)[i],
            #[trigger] rest.push(x)[j],
        ) by {
            assert(rest.push(x) =~= t.push(x).drop_first());
            assert(rest.push(x)[i] == t.push(x)[i + 1]);
            assert(rest.push(x)[j] == t.push(x)[j + 1]);
            assert(item_le(sort, t.push(x)[i + 1], t.push(x)[j + 1]));
        }
        lemma_insert_at_end(sort, x, rest);
        assert(insert_sorted(sort, x, t) == seq![t[0]] + insert_sorted(sort, x, rest));
    }
}

/// The sort is deterministic: equal inputs under an equal key give
/// byte-for-byte the same order.
pub proof fn lemma_sort_deterministic(sort: PackSort, s1: Seq<PackableItem>, s2: Seq<PackableItem>)
    requires
        s1 =~= s2,
    ensures
        sort_spec(sort, s1) == sort_spec(sort, s2),
{
}

/// The sort is idempotent: sorting an already-sorted sequence changes
/// nothing.
pub proof fn lemma_sort_idempotent(sort: PackSort, s: Seq<PackableItem>)
    requires
        is_sorted(sort, s),
    ensures
        sort_spec(sort, s) =~= s,
    decreases s.len(),
{
    if s.len() == 0 {
    } else {
        let dl = s.drop_last();
        assert forall|i: int, j: int| 0 <= i < j < dl.len() implies item_le(
            sort,
            #[trigger] dl[i],
            #[trigger] dl[j],
        ) by {
            assert(dl[i] == s[i]);
            assert(dl[j] == s[j]);
            assert(item_le(sort, s[i], s[j]));
        }
        lemma_sort_idempotent(sort, dl);
        assert(dl.push(s.last()) =~= s);
        assert(is_sorted(sort, sort_spec(sort, dl).push(s.last())));
        lemma_insert_at_end(sort, s.last(), sort_spec(sort, dl));
    }
}

/// In a sorted sequence, ties on the primary key stand in ascending name
/// order.
pub proof fn lemma_ties_resolve_by_name(sort: PackSort, s: Seq<PackableItem>, i: int, j: int)
    requires
        is_sorted(sort, s),
        0 <= i < j < s.len(),
        primary_tie(sort, s[i], s[j]),
    ensures
        !lex_lt(item_name(s[j]), item_name(s[i])),
{
    assert(item_le(sort, s[i], s[j]));
}

fn item_lt_exec(sort: PackSort, a: &PackableItem, b: &PackableItem) -> (r: bool)
    ensures
        r == item_lt(sort, *a, *b),
{
    let sa = a.sprite();
    let sb = b.sprite();
    match sort {
        PackSort::Area => {
            proof {
                assert(sa.size.width as int * sa.size.height as int <= 0xffff_ffff * 0xffff_ffff
                    && sb.size.width as int * sb.size.height as int <= 0xffff_ffff * 0xffff_ffff)
                    by (nonlinear_arith)
                    requires
                        sa.size.width <= 0xffff_ffffu32,
                        sa.size.height <= 0xffff_ffffu32,
                        sb.size.width <= 0xffff_ffffu32,
                        sb.size.height <= 0xffff_ffffu32,
                ;
            }
            let aa = sa.size.width as u64 * sa.size.height as u64;
            let ab = sb.size.width as u64 * sb.size.height as u64;
            if aa != ab {
                aa > ab
            } else {
                str_lt(sa.name.as_str(), sb.name.as_str())
            }
        },
        PackSort::MaxSide => {
            let ma = if sa.size.width >= sa.size.height {
                sa.size.width
            } else {
                sa.size.height
            };
            let mb = if sb.size.width >= sb.size.height {
                sb.size.width
            } else {
                sb.size.height
            };
            if ma != mb {
                ma > mb
            } else {
                str_lt(sa.name.as_str(), sb.name.as_str())
            }
        },
        PackSort::Name => str_lt(sa.name.as_str(), sb.name.as_str()),
    }
}

/// Splicing at the first position whose element `x` packs strictly before
/// is the same as the recursive insertion.
proof fn lemma_insert_at_pos(sort: PackSort, x: PackableItem, t: Seq<PackableItem>, p: int)
    requires
        0 <= p <= t.len(),
        forall|j: int| 0 <= j < p ==> !item_lt(sort, x, #[trigger] t[j]),
        p == t.len() || item_lt(sort, x, t[p]),
    ensures
        insert_sorted(sort, x, t) =~= t.insert(p, x),
    decreases t.len(),
{
    if t.len() == 0 {
        assert(insert_sorted(sort, x, t) =~= t.insert(0, x));
    } else if p == 0 {
        assert(insert_sorted(sort, x, t) == seq![x] + t);
        assert(insert_sorted(sort, x, t) =~= t.insert(0, x));
    } else {
        let rest = t.drop_first();
        assert(!item_lt(sort, x, t[0]));
        assert forall|j: int| 0 <= j < p - 1 implies !item_lt(sort, x, #[trigger] rest[j]) by {
            assert(rest[j] == t[j + 1]);
        }
        if p < t.len() {
            assert(rest[p - 1] == t[p]);
        }
        lemma_insert_at_pos(sort, x, rest, p - 1);
        assert(insert_sorted(sort, x, t) == seq![t[0]] + insert_sorted(sort, x, rest));
        assert(insert_sorted(sort, x, t) =~= t.insert(p, x));
    }
}

fn insert_item(sort: PackSort, x: PackableItem, v: &mut Vec<PackableItem>)
    ensures
        final(v)@ =~= insert_sorted(sort, x, old(v)@),
{
    let n = v.len();
    let mut p: usize = 0;
    loop
        invariant_except_break
            n == v@.len(),
            p <= n,
            forall|j: int| 0 <= j < p ==> !item_lt(sort, x, #[trigger] v@[j]),
        ensures
            n == v@.len(),
            p <= n,
            forall|j: int| 0 <= j < p ==> !item_lt(sort, x, #[trigger] v@[j]),
            p == n || item_lt(sort, x, v@[p as int]),
        decreases n - p,
    {
        if p == n {
            break ;
        }
        if item_lt_exec(sort, &x, &v[p]) {
            break ;
        }
        p += 1;
    }
    proof {
        lemma_insert_at_pos(sort, x, v@, p as int);
    }
    v.insert(p, x);
}

impl Packer {
    /// Impose the configured total order on the items. The result is the
    /// unique order `sort_spec` describes: sorted, a permutation of the
    /// input, deterministic, idempotent, and tie-broken by ascending name
    /// (the named lemmas state those laws).
    pub fn sort_sprites(&self, items: &mut Vec<PackableItem>)
        ensures
            final(items)@ =~= sort_spec(self.options.spec_sort(), old(items)@),
            is_sorted(self.options.spec_sort(), final(items)@),
            final(items)@.to_multiset() =~= old(items)@.to_multiset(),
    {
        let sort = self.options.sort();
        let ghost orig = items@;
        let mut result: Vec<PackableItem> = Vec::new();
        let ghost mut k: int = 0;
        proof {
            assert(orig.take(0) =~= Seq::<PackableItem>::empty());
        }
        while items.len() > 0
            invariant
                0 <= k <= orig.len(),
                items@ =~= orig.skip(k),
                result@ =~= sort_spec(sort, orig.take(k)),
                sort == self.options.spec_sort(),
            decreases items@.len(),
        {
            let x = items.remove(0);
            proof {
                assert(x == orig[k]);
                assert(orig.skip(k).remove(0) =~= orig.skip(k + 1));
                assert(orig.take(k + 1).drop_last() =~= orig.take(k));
                assert(orig.take(k + 1).last() == orig[k]);
            }
            insert_item(sort, x, &mut result);
            proof {
                k = k + 1;
            }
        }
        proof {
            assert(orig.take(k) =~= orig);
            lemma_sort_spec_props(sort, orig);
        }
        *items = result;
    }
}

} // verus!
