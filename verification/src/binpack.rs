//! Single-page rectangle packer. A packer owns one fixed-size page and
//! places one rectangle per call, never overlapping an earlier placement and
//! never leaving the page. Two strategies are offered: a MaxRects-style
//! packer that keeps overlapping maximal free rectangles, and a
//! Guillotine-style packer that keeps a disjoint partition of the free space
//! and splits it with straight cuts.

use vstd::prelude::*;

use crate::config::PackAlgorithm;
use crate::geom::{rect_contains, rect_in_page, rects_disjoint, Rect, Size};

verus! {

/// `n` is a power of two.
pub open spec fn is_pow2(n: int) -> bool
    decreases n,
{
    if n <= 0 {
        false
    } else if n == 1 {
        true
    } else {
        n % 2 == 0 && is_pow2(n / 2)
    }
}

/// The least power of two reaching `n`, for the sizes where one exists in
/// 32 bits; a dimension beyond the largest representable power of two is
/// kept as it is.
pub fn next_pow2(n: u32) -> (r: u32)
    ensures
        r >= n,
        r == n || is_pow2(r as int),
        n >= 1 && n <= 0x8000_0000u32 ==> is_pow2(r as int) && (r as int) / 2 < n,
        n <= 1 ==> r == 1,
        n > 0x8000_0000u32 ==> r == n,
{
    if n > 0x8000_0000 {
        return n;
    }
    let mut p: u32 = 1;
    while p < n
        invariant
            p >= 1,
            n <= 0x8000_0000,
            is_pow2(p as int),
            p == 1 || (p as int) / 2 < n,
        decreases 2 * (n as int) - p,
    {
        p = p * 2;
    }
    p
}

/// A rectangle `f` can host an item of size `s` flush against its corner.
pub open spec fn size_fits_in(s: Size, f: Rect) -> bool {
    s.width <= f.width && s.height <= f.height
}

/// `bi` names the free rectangle the packer chooses for `s`: the first of
/// least area among those that can host it. At most one index qualifies,
/// so the placement is a function of the free list and the request.
pub open spec fn chosen_host(free: Seq<Rect>, s: Size, bi: int) -> bool {
    &&& 0 <= bi < free.len()
    &&& size_fits_in(s, free[bi])
    &&& forall|k: int|
        0 <= k < free.len() && size_fits_in(s, #[trigger] free[k]) ==> free[bi].width
            * free[bi].height <= free[k].width * free[k].height
    &&& forall|k: int|
        0 <= k < bi && size_fits_in(s, #[trigger] free[k]) ==> free[k].width * free[k].height
            > free[bi].width * free[bi].height
}

/// Packs rectangles into one fixed-size page.
pub struct BinPacker {
    page: Size,
    algorithm: PackAlgorithm,
    free: Vec<Rect>,
    placed: Ghost<Seq<Rect>>,
}

impl BinPacker {
    /// The page this packer fills.
    pub closed spec fn spec_page(self) -> Size {
        self.page
    }

    /// The strategy this packer uses.
    pub closed spec fn spec_algorithm(self) -> PackAlgorithm {
        self.algorithm
    }

    /// Every rectangle handed out so far, in order.
    pub closed spec fn placements(self) -> Seq<Rect> {
        self.placed@
    }

    /// The free rectangles the packer currently tracks, in order.
    pub closed spec fn free_rects(self) -> Seq<Rect> {
        self.free@
    }

    /// Some free rectangle can host an item of size `s`.
    pub closed spec fn can_fit(self, s: Size) -> bool {
        exists|i: int| 0 <= i < self.free_rects().len() && size_fits_in(s, self.free_rects()[i])
    }

    /// The packer's invariant: free rectangles lie in the page and avoid
    /// every placement; placements lie in the page and are pairwise
    /// disjoint; a Guillotine packer's free rectangles are also pairwise
    /// disjoint.
    pub closed spec fn wf(self) -> bool {
        &&& forall|i: int|
            0 <= i < self.free@.len() ==> rect_in_page(#[trigger] self.free@[i], self.page)
        &&& forall|i: int, j: int|
            0 <= i < self.placed@.len() && 0 <= j < self.free@.len() ==> rects_disjoint(
                #[trigger] self.placed@[i],
                #[trigger] self.free@[j],
            )
        &&& forall|i: int|
            0 <= i < self.placed@.len() ==> rect_in_page(#[trigger] self.placed@[i], self.page)
        &&& forall|i: int, j: int|
            0 <= i < j < self.placed@.len() ==> rects_disjoint(
                #[trigger] self.placed@[i],
                #[trigger] self.placed@[j],
            )
        &&& self.algorithm == PackAlgorithm::Guillotine ==> forall|i: int, j: int|
            0 <= i < j < self.free@.len() ==> rects_disjoint(
                #[trigger] self.free@[i],
                #[trigger] self.free@[j],
            )
    }

    /// A fresh packer: one free rectangle covering the whole page, nothing
    /// placed, so exactly the items no larger than the page can fit.
    pub fn new(page: Size, algorithm: PackAlgorithm) -> (p: BinPacker)
        ensures
            p.wf(),
            p.spec_page() == page,
            p.spec_algorithm() == algorithm,
            p.placements() =~= Seq::<Rect>::empty(),
            forall|s: Size| p.can_fit(s) == (s.width <= page.width && s.height <= page.height),
    {
        let whole = Rect { x: 0, y: 0, width: page.width, height: page.height };
        let mut free: Vec<Rect> = Vec::new();
        free.push(whole);
        let p = BinPacker { page, algorithm, free, placed: Ghost(Seq::empty()) };
        proof {
            assert(p.free_rects().len() == 1);
            assert(p.free_rects()[0] == whole);
            assert forall|s: Size|
                p.can_fit(s) == (s.width <= page.width && s.height <= page.height) by {
                if s.width <= page.width && s.height <= page.height {
                    assert(size_fits_in(s, p.free_rects()[0]));
                }
                if p.can_fit(s) {
                    let i = choose|i: int|
                        0 <= i < p.free_rects().len() && size_fits_in(s, p.free_rects()[i]);
                    assert(i == 0);
                }
            }
        }
        p
    }

    /// Index of the best free rectangle for `s`: among those that can host
    /// it, the one of least area, earliest such on a tie. `None` when no
    /// free rectangle can host `s`.
    fn find_best(&self, s: Size) -> (r: Option<usize>)
        ensures
            match r {
                Some(bi) => chosen_host(self.free_rects(), s, bi as int),
                None => !self.can_fit(s),
            },
    {
        let mut best: Option<usize> = None;
        let mut best_area: u64 = 0;
        let n = self.free.len();
        let mut i: usize = 0;
        while i < n
            invariant
                n == self.free@.len(),
                0 <= i <= n,
                match best {
                    Some(bi) => {
                        &&& 0 <= bi < i
                        &&& size_fits_in(s, self.free@[bi as int])
                        &&& best_area == self.free@[bi as int].width
                            * self.free@[bi as int].height
                        &&& forall|k: int|
                            0 <= k < i && size_fits_in(s, #[trigger] self.free@[k]) ==> best_area
                                <= self.free@[k].width * self.free@[k].height
                        &&& forall|k: int|
                            0 <= k < bi && size_fits_in(s, #[trigger] self.free@[k])
                                ==> self.free@[k].width * self.free@[k].height > best_area
                    },
                    None => forall|k: int| 0 <= k < i ==> !size_fits_in(s, #[trigger] self.free@[k]),
                },
            decreases n - i,
        {
            let f = self.free[i];
            if s.width <= f.width && s.height <= f.height {
                proof {
                    assert(f.width as int * f.height as int <= 0xffff_ffff * 0xffff_ffff)
                        by (nonlinear_arith)
                        requires
                            f.width <= 0xffff_ffffu32,
                            f.height <= 0xffff_ffffu32,
                    ;
                }
                let area = f.width as u64 * f.height as u64;
                let better = match best {
                    None => true,
                    Some(_) => area < best_area,
                };
                if better {
                    best = Some(i);
                    best_area = area;
                }
            }
            i += 1;
        }
        best
    }

    /// Place an item of size `s`. On success the returned rectangle has
    /// exactly the requested size, lies inside the page, and is appended to
    /// the placement record; the invariant then says it overlaps no earlier
    /// placement. The request is refused only when no free rectangle can
    /// host it; the placements are then unchanged.
    pub fn pack(&mut self, s: Size) -> (r: Option<Rect>)
        requires
            old(self).wf(),
        ensures
            final(self).wf(),
            final(self).spec_page() == old(self).spec_page(),
            final(self).spec_algorithm() == old(self).spec_algorithm(),
            match r {
                Some(rect) => {
                    &&& rect.width == s.width
                    &&& rect.height == s.height
                    &&& rect_in_page(rect, old(self).spec_page())
                    &&& exists|bi: int|
                        #![trigger chosen_host(old(self).free_rects(), s, bi)]
                        chosen_host(old(self).free_rects(), s, bi) && rect.x == old(
                            self,
                        ).free_rects()[bi].x && rect.y == old(self).free_rects()[bi].y
                    &&& final(self).placements() =~= old(self).placements().push(rect)
                    &&& forall|i: int|
                        0 <= i < old(self).placements().len() ==> rects_disjoint(
                            #[trigger] old(self).placements()[i],
                            rect,
                        )
                },
                None => {
                    &&& *final(self) == *old(self)
                    &&& !old(self).can_fit(s)
                },
            },
    {
        let best = match self.find_best(s) {
            Some(bi) => bi,
            None => {
                return None;
            },
        };
        let host = self.free[best];
        let rect = Rect { x: host.x, y: host.y, width: s.width, height: s.height };
        assert(rect_contains(host, rect));
        assert(rect_in_page(rect, self.page));

        match self.algorithm {
            PackAlgorithm::MaxRects => self.subtract_from_free(rect),
            PackAlgorithm::Guillotine => self.guillotine_split(best, rect),
        }

        proof {
            self.placed@ = self.placed@.push(rect);
        }
        Some(rect)
    }

    /// MaxRects update: replace every free rectangle meeting `rect` by its
    /// up-to-four remainder slivers, then discard free rectangles contained
    /// in another.
    fn subtract_from_free(&mut self, rect: Rect)
        requires
            old(self).wf(),
            old(self).algorithm == PackAlgorithm::MaxRects,
            rect_in_page(rect, old(self).page),
            forall|i: int|
                0 <= i < old(self).placed@.len() ==> rects_disjoint(
                    #[trigger] old(self).placed@[i],
                    rect,
                ),
        ensures
            final(self).page == old(self).page,
            final(self).algorithm == old(self).algorithm,
            final(self).placed == old(self).placed,
            forall|j: int|
                0 <= j < final(self).free@.len() ==> rect_in_page(
                    #[trigger] final(self).free@[j],
                    old(self).page,
                ) && rects_disjoint(final(self).free@[j], rect) && forall|i: int|
                    0 <= i < old(self).placed@.len() ==> rects_disjoint(
                        #[trigger] old(self).placed@[i],
                        final(self).free@[j],
                    ),
    {
        let ghost placed = self.placed@;
        let ghost page = self.page;
        let n = self.free.len();
        let mut split: Vec<Rect> = Vec::new();
        let mut i: usize = 0;
        while i < n
            invariant
                n == self.free@.len(),
                self.wf(),
                self.algorithm == PackAlgorithm::MaxRects,
                self.placed@ == placed,
                self.page == page,
                rect_in_page(rect, page),
                forall|k: int|
                    0 <= k < split@.len() ==> rect_in_page(#[trigger] split@[k], page)
                        && rects_disjoint(split@[k], rect) && forall|p: int|
                        0 <= p < placed.len() ==> rects_disjoint(
                            #[trigger] placed[p],
                            split@[k],
                        ),
            decreases n - i,
        {
            let f = self.free[i];
            if !f.overlaps(&rect) {
                split.push(f);
            } else {
                // Left sliver.
                if rect.x > f.x {
                    let sl = Rect { x: f.x, y: f.y, width: rect.x - f.x, height: f.height };
                    assert(rect_contains(f, sl));
                    split.push(sl);
                }
                // Right sliver.
                if rect.x + rect.width < f.x + f.width {
                    let sl = Rect {
                        x: rect.x + rect.width,
                        y: f.y,
                        width: (f.x + f.width) - (rect.x + rect.width),
                        height: f.height,
                    };
                    assert(rect_contains(f, sl));
                    split.push(sl);
                }
                // Top sliver.
                if rect.y > f.y {
                    let sl = Rect { x: f.x, y: f.y, width: f.width, height: rect.y - f.y };
                    assert(rect_contains(f, sl));
                    split.push(sl);
                }
                // Bottom sliver.
                if rect.y + rect.height < f.y + f.height {
                    let sl = Rect {
                        x: f.x,
                        y: rect.y + rect.height,
                        width: f.width,
                        height: (f.y + f.height) - (rect.y + rect.height),
                    };
                    assert(rect_contains(f, sl));
                    split.push(sl);
                }
            }
            i += 1;
        }
        // Discard free rectangles contained in another; of equal duplicates
        // the first stays.
        let m = split.len();
        let mut pruned: Vec<Rect> = Vec::new();
        let mut a: usize = 0;
        while a < m
            invariant
                m == split@.len(),
                rect_in_page(rect, page),
                forall|k: int|
                    0 <= k < split@.len() ==> rect_in_page(#[trigger] split@[k], page)
                        && rects_disjoint(split@[k], rect) && forall|p2: int|
                        0 <= p2 < placed.len() ==> rects_disjoint(
                            #[trigger] placed[p2],
                            split@[k],
                        ),
                forall|k: int|
                    0 <= k < pruned@.len() ==> rect_in_page(#[trigger] pruned@[k], page)
                        && rects_disjoint(pruned@[k], rect) && forall|p2: int|
                        0 <= p2 < placed.len() ==> rects_disjoint(
                            #[trigger] placed[p2],
                            pruned@[k],
                        ),
            decreases m - a,
        {
            let cur = split[a];
            let mut keep = true;
            let mut b: usize = 0;
            while b < m
                invariant
                    m == split@.len(),
                    a < m,
                    cur == split@[a as int],
                decreases m - b,
            {
                if b != a && split[b].contains(&cur) && (b < a || !(split[b] == cur)) {
                    keep = false;
                }
                b += 1;
            }
            if keep {
                pruned.push(cur);
            }
            a += 1;
        }
        self.free = pruned;
    }

    /// Guillotine update: the chosen free rectangle is replaced by two
    /// disjoint remainders cut along straight lines; every other free
    /// rectangle is untouched.
    fn guillotine_split(&mut self, best: usize, rect: Rect)
        requires
            old(self).wf(),
            old(self).algorithm == PackAlgorithm::Guillotine,
            best < old(self).free@.len(),
            rect.x == old(self).free@[best as int].x,
            rect.y == old(self).free@[best as int].y,
            rect.width <= old(self).free@[best as int].width,
            rect.height <= old(self).free@[best as int].height,
            forall|i: int|
                0 <= i < old(self).placed@.len() ==> rects_disjoint(
                    #[trigger] old(self).placed@[i],
                    rect,
                ),
        ensures
            final(self).page == old(self).page,
            final(self).algorithm == old(self).algorithm,
            final(self).placed == old(self).placed,
            forall|j: int|
                0 <= j < final(self).free@.len() ==> rect_in_page(
                    #[trigger] final(self).free@[j],
                    old(self).page,
                ) && rects_disjoint(final(self).free@[j], rect) && forall|i: int|
                    0 <= i < old(self).placed@.len() ==> rects_disjoint(
                        #[trigger] old(self).placed@[i],
                        final(self).free@[j],
                    ),
            final(self).wf(),
    {
        let host = self.free[best];
        let ghost old_free = self.free@;
        // Everything to the right of the placement, at its height.
        let right_part = Rect {
            x: rect.x + rect.width,
            y: host.y,
            width: host.width - rect.width,
            height: rect.height,
        };
        // Everything below the placement, across the host's full width.
        let bottom_part = Rect {
            x: host.x,
            y: rect.y + rect.height,
            width: host.width,
            height: host.height - rect.height,
        };
        assert(rect_contains(host, right_part));
        assert(rect_contains(host, bottom_part));
        let _ = self.free.remove(best);
        proof {
            assert(self.free@ =~= old_free.remove(best as int));
        }
        if right_part.width > 0 && right_part.height > 0 {
            self.free.push(right_part);
        }
        if bottom_part.width > 0 && bottom_part.height > 0 {
            self.free.push(bottom_part);
        }
    }
}

} // verus!
