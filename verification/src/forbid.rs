use vstd::prelude::*;

use crate::catalog::TilePattern;
use crate::wave::{all_entries_ok, apply_plan, entry_cell, entry_ok, lemma_collapse_respects_plan};
use crate::WfcError;
use vstd::arithmetic::div_mod::{lemma_fundamental_div_mod, lemma_fundamental_div_mod_converse};

verus! {

/// No value occurs twice.
pub open spec fn no_dups(s: Seq<u32>) -> bool {
    forall|a: int, b: int| 0 <= a < b < s.len() ==> s[a] != s[b]
}

/// The distance from the far edges of a grid to the corner coordinate the
/// boundary constraint reads, for patterns of size `k`.
pub open spec fn corner_offset(k: u32) -> int {
    k - k / 2
}

/// The boundary constraint: it forces designated far-edge cells of the
/// output to be drawn only from the pattern identities observed at the
/// sample's bottom-right corner coordinate. The allowed-identity set is
/// computed once at construction and reused unchanged for a whole run.
pub struct ForceBorderForbid {
    pattern_ids: Vec<u32>,
    offset: u32,
}

impl ForceBorderForbid {
    /// The allowed identities, deduplicated, in first-seen order.
    pub closed spec fn allowed_seq(&self) -> Seq<u32> {
        self.pattern_ids@
    }

    /// The allowed-identity set.
    pub open spec fn allowed(&self) -> Set<u32> {
        self.allowed_seq().to_set()
    }

    pub closed spec fn off(&self) -> int {
        self.offset as int
    }

    pub open spec fn wf(&self) -> bool {
        &&& self.allowed_seq().len() >= 1
        &&& no_dups(self.allowed_seq())
        &&& self.off() >= 1
    }

    /// Build the constraint from a catalog. The sample coordinate read is
    /// `(width - offset, height - offset)` with `offset = k - k/2`; if the
    /// sample is smaller than `offset` in either dimension that coordinate
    /// does not exist and construction fails with `OutOfRange`.
    ///
    /// Construction succeeds exactly when both sample dimensions reach
    /// `offset`; in particular it succeeds on every sample at least as large
    /// as the pattern in both dimensions, and the allowed-identity set is
    /// then the non-empty set of identities rooted at the corner coordinate.
    pub fn new(pattern: &TilePattern, pattern_size: u32) -> (r: Result<ForceBorderForbid, WfcError>)
        requires
            pattern.wf(),
            pattern_size >= 1,
        ensures
            r is Ok <==> (pattern.grid.w() >= corner_offset(pattern_size) && pattern.grid.h()
                >= corner_offset(pattern_size)),
            (pattern.grid.w() >= pattern_size && pattern.grid.h() >= pattern_size) ==> r is Ok,
            r is Err ==> r == Err::<ForceBorderForbid, WfcError>(WfcError::OutOfRange),
            (pattern.grid.w() < corner_offset(pattern_size) || pattern.grid.h() < corner_offset(
                pattern_size,
            )) ==> r == Err::<ForceBorderForbid, WfcError>(WfcError::OutOfRange),
            r is Ok ==> {
                let f = r.unwrap();
                &&& f.wf()
                &&& f.off() == corner_offset(pattern_size)
                &&& f.allowed() == pattern.spec_ids_at(
                    pattern.grid.w() - corner_offset(pattern_size),
                    pattern.grid.h() - corner_offset(pattern_size),
                ).to_set()
                &&& !f.allowed().is_empty()
                &&& f.allowed_seq().len() <= pattern.spec_ids_at(
                    pattern.grid.w() - corner_offset(pattern_size),
                    pattern.grid.h() - corner_offset(pattern_size),
                ).len()
                &&& forall|a: int|
                    0 <= a < f.allowed_seq().len() ==> (#[trigger] f.allowed_seq()[a] as int)
                        < pattern.pattern_count()
            },
    {
        let offset: u32 = pattern_size - pattern_size / 2;
        let w = pattern.grid.width();
        let h = pattern.grid.height();
        if w < offset || h < offset {
            return Err(WfcError::OutOfRange);
        }
        let cx: u32 = w - offset;
        let cy: u32 = h - offset;
        let ids = pattern.ids_at(cx, cy);
        proof {
            pattern.lemma_ids_at(cx as int, cy as int);
        }
        let mut uniq: Vec<u32> = Vec::new();
        let mut i: usize = 0;
        while i < ids.len()
            invariant
                i <= ids@.len(),
                forall|a: int| 0 <= a < uniq@.len() ==> ids@.contains(#[trigger] uniq@[a]),
                forall|b: int| 0 <= b < i ==> uniq@.contains(#[trigger] ids@[b]),
                no_dups(uniq@),
            decreases ids@.len() - i,
        {
            let ghost pre = uniq@;
            if !contains_u32(&uniq, ids[i]) {
                uniq.push(ids[i]);
            }
            proof {
                assert forall|b: int| 0 <= b <= i implies uniq@.contains(#[trigger] ids@[b]) by {
                    if b < i || pre.contains(ids@[b]) {
                        let idx = choose|idx: int| 0 <= idx < pre.len() && pre[idx] == ids@[b];
                        assert(uniq@[idx] == ids@[b]);
                    } else {
                        assert(uniq@[pre.len() as int] == ids@[b]);
                    }
                }
            }
            i += 1;
        }
        proof {
            assert(ids@.len() >= 1);
            assert(uniq@.contains(ids@[0]));
            assert(uniq@.len() >= 1);
            assert forall|a: int| 0 <= a < uniq@.len() implies (#[trigger] uniq@[a] as int)
                < pattern.pattern_count() by {
                let e = uniq@[a];
                assert(ids@.contains(e));
                let j = choose|j: int| 0 <= j < ids@.len() && ids@[j] == e;
                assert((ids@[j] as int) < pattern.pattern_count());
            }
            assert forall|e: u32| ids@.contains(e) implies uniq@.contains(e) by {
                let b = choose|b: int| 0 <= b < ids@.len() && ids@[b] == e;
                assert(uniq@.contains(ids@[b]));
            }
            assert(uniq@.to_set() =~= ids@.to_set());
            assert(uniq@.to_set().contains(ids@[0]));
            assert(uniq@.no_duplicates());
            uniq@.unique_seq_to_set();
            ids@.lemma_cardinality_of_set();
            assert(uniq@.len() <= ids@.len());
        }
        Ok(ForceBorderForbid { pattern_ids: uniq, offset })
    }

    /// How many identities are allowed.
    pub fn allowed_len(&self) -> (r: usize)
        ensures
            r == self.allowed_seq().len(),
    {
        self.pattern_ids.len()
    }

    /// The allowed identities, deduplicated.
    pub fn allowed_ids(&self) -> (r: &Vec<u32>)
        ensures
            r@ == self.allowed_seq(),
    {
        &self.pattern_ids
    }

    pub fn offset(&self) -> (r: u32)
        ensures
            r == self.off(),
    {
        self.offset
    }

    /// Entry `i` of the elimination plan for an output of size
    /// `out_w` by `out_h`: first one block per column `x` of the designated
    /// bottom row, then one block per step `y` along the designated right
    /// column — both blocks bounded by `out_w`, exactly as the engine-facing
    /// step has always scanned them — and within a block one instruction per
    /// allowed identity.
    pub open spec fn plan_entry(&self, out_w: u32, out_h: u32, i: int) -> (u32, u32, u32) {
        let n = self.allowed_seq().len() as int;
        let c = i / n;
        let j = i % n;
        let id = self.allowed_seq()[j];
        if c < out_w {
            (c as u32, (out_h - self.off()) as u32, id)
        } else {
            ((out_w - self.off()) as u32, (c - out_w) as u32, id)
        }
    }

    /// The per-step elimination instructions: for each designated output
    /// coordinate, and for each allowed identity, instruct the engine to
    /// eliminate all other identities at that coordinate. Reapplying the
    /// plan to an already-restricted wave changes nothing further.
    pub fn forbid_plan(&self, out_w: u32, out_h: u32) -> (r: Vec<(u32, u32, u32)>)
        requires
            self.wf(),
            out_w >= self.off(),
            out_h >= self.off(),
            2 * out_w * self.allowed_seq().len() <= usize::MAX,
        ensures
            r@.len() == 2 * out_w * self.allowed_seq().len(),
            forall|i: int| 0 <= i < r@.len() ==> r@[i] == self.plan_entry(out_w, out_h, i),
    {
        let n = self.pattern_ids.len();
        let ghost nn = n as int;
        let yrow: u32 = out_h - self.offset;
        let xcol: u32 = out_w - self.offset;
        let mut r: Vec<(u32, u32, u32)> = Vec::new();
        let mut x: u32 = 0;
        while x < out_w
            invariant
                self.wf(),
                x <= out_w,
                nn == self.allowed_seq().len(),
                n == nn,
                yrow == out_h - self.off(),
                xcol == out_w - self.off(),
                out_w >= self.off() >= 1,
                out_h >= self.off() >= 1,
                2 * out_w * nn <= usize::MAX,
                r@.len() == x * nn,
                forall|i: int| 0 <= i < r@.len() ==> r@[i] == self.plan_entry(out_w, out_h, i),
            decreases out_w - x,
        {
            let mut j: usize = 0;
            proof {
                assert((x + 1) * nn <= out_w * nn <= 2 * out_w * nn) by (nonlinear_arith)
                    requires
                        x < out_w,
                        nn >= 1,
                        0 <= out_w,
                ;
            }
            while j < n
                invariant
                    self.wf(),
                    x < out_w,
                    j <= n,
                    nn == self.allowed_seq().len(),
                    n == nn,
                    yrow == out_h - self.off(),
                    xcol == out_w - self.off(),
                    out_w >= self.off() >= 1,
                    out_h >= self.off() >= 1,
                    2 * out_w * nn <= usize::MAX,
                    (x + 1) * nn <= 2 * out_w * nn,
                    r@.len() == x * nn + j,
                    forall|i: int| 0 <= i < r@.len() ==> r@[i] == self.plan_entry(out_w, out_h, i),
                decreases n - j,
            {
                proof {
                    assert(x * nn + j < (x + 1) * nn) by (nonlinear_arith)
                        requires
                            j < nn,
                            0 <= x,
                    ;
                    lemma_fundamental_div_mod_converse(x * nn + j, nn, x as int, j as int);
                }
                r.push((x, yrow, self.pattern_ids[j]));
                j += 1;
            }
            x += 1;
            proof {
                assert(x * nn == (x - 1) * nn + nn) by (nonlinear_arith);
            }
        }
        let mut y: u32 = 0;
        while y < out_w
            invariant
                self.wf(),
                y <= out_w,
                nn == self.allowed_seq().len(),
                n == nn,
                yrow == out_h - self.off(),
                xcol == out_w - self.off(),
                out_w >= self.off() >= 1,
                out_h >= self.off() >= 1,
                2 * out_w * nn <= usize::MAX,
                r@.len() == (out_w + y) * nn,
                forall|i: int| 0 <= i < r@.len() ==> r@[i] == self.plan_entry(out_w, out_h, i),
            decreases out_w - y,
        {
            let mut j: usize = 0;
            proof {
                assert((out_w + y + 1) * nn <= 2 * out_w * nn) by (nonlinear_arith)
                    requires
                        y < out_w,
                        nn >= 1,
                        0 <= out_w,
                ;
            }
            while j < n
                invariant
                    self.wf(),
                    y < out_w,
                    j <= n,
                    nn == self.allowed_seq().len(),
                    n == nn,
                    yrow == out_h - self.off(),
                    xcol == out_w - self.off(),
                    out_w >= self.off() >= 1,
                    out_h >= self.off() >= 1,
                    2 * out_w * nn <= usize::MAX,
                    (out_w + y + 1) * nn <= 2 * out_w * nn,
                    r@.len() == (out_w + y) * nn + j,
                    forall|i: int| 0 <= i < r@.len() ==> r@[i] == self.plan_entry(out_w, out_h, i),
                decreases n - j,
            {
                proof {
                    assert((out_w + y) * nn + j < (out_w + y + 1) * nn) by (nonlinear_arith)
                        requires
                            j < nn,
                            0 <= out_w + y,
                    ;
                    lemma_fundamental_div_mod_converse(
                        (out_w + y) * nn + j,
                        nn,
                        out_w + y,
                        j as int,
                    );
                }
                r.push((xcol, y, self.pattern_ids[j]));
                j += 1;
            }
            y += 1;
            proof {
                assert((out_w + y) * nn == (out_w + y - 1) * nn + nn) by (nonlinear_arith);
            }
        }
        proof {
            assert(r@.len() == (out_w + out_w) * nn);
            assert((out_w + out_w) * nn == 2 * out_w * nn) by (nonlinear_arith);
        }
        r
    }
}

/// Every instruction of the boundary plan aims at an existing cell of the
/// output and keeps an identity the catalog knows.
pub proof fn lemma_plan_entries_ok(
    f: ForceBorderForbid,
    out_w: u32,
    out_h: u32,
    plan: Seq<(u32, u32, u32)>,
    len: int,
    p: int,
)
    requires
        f.wf(),
        out_w >= f.off(),
        out_h >= f.off(),
        out_w <= out_h,
        forall|a: int| 0 <= a < f.allowed_seq().len() ==> (#[trigger] f.allowed_seq()[a] as int) < p,
        plan.len() == 2 * out_w * f.allowed_seq().len(),
        forall|i: int| 0 <= i < plan.len() ==> plan[i] == f.plan_entry(out_w, out_h, i),
        len == out_w * out_h,
    ensures
        all_entries_ok(plan, out_w as int, len, p),
{
    let n = f.allowed_seq().len() as int;
    let w = out_w as int;
    let h = out_h as int;
    assert forall|i: int| 0 <= i < plan.len() implies entry_ok(#[trigger] plan[i], w, len, p) by {
        lemma_fundamental_div_mod(i, n);
        let c = i / n;
        let j = i % n;
        assert(0 <= j < n);
        assert(c >= 0) by (nonlinear_arith)
            requires
                i >= 0,
                n >= 1,
                i == n * c + j,
                0 <= j < n,
        ;
        assert(c < 2 * w) by (nonlinear_arith)
            requires
                i < 2 * w * n,
                n >= 1,
                i == n * c + j,
                0 <= j < n,
        ;
        let e = plan[i];
        assert(e == f.plan_entry(out_w, out_h, i));
        assert((e.2 as int) < p);
        if c < w {
            assert(e.0 == c as u32);
            assert(e.1 == (h - f.off()) as u32);
            assert(entry_cell(e, w) == (h - f.off()) * w + c);
            assert(0 <= (h - f.off()) * w + c < h * w) by (nonlinear_arith)
                requires
                    0 <= c < w,
                    1 <= f.off() <= h,
            ;
            assert(h * w == len) by (nonlinear_arith)
                requires
                    len == w * h,
            ;
        } else {
            let y = c - w;
            assert(e.0 == (w - f.off()) as u32);
            assert(e.1 == y as u32);
            assert(entry_cell(e, w) == y * w + (w - f.off()));
            assert(0 <= y * w + (w - f.off()) < h * w) by (nonlinear_arith)
                requires
                    0 <= y < w <= h,
                    1 <= f.off() <= w,
            ;
            assert(h * w == len) by (nonlinear_arith)
                requires
                    len == w * h,
            ;
        }
    }
}

/// After any successful collapse constrained by the boundary plan — the
/// plan applied without contradiction, every cell's chosen identity still
/// possible afterwards, and each output tile the representative value of
/// its cell's identity — every cell of the designated bottom row, and of
/// the designated right-column stretch, holds an identity from the allowed
/// set, hence the representative tile value of an allowed identity.
pub proof fn lemma_boundary_collapse(
    f: ForceBorderForbid,
    pattern: TilePattern,
    out_w: u32,
    out_h: u32,
    d: Seq<Seq<bool>>,
    d2: Seq<Seq<bool>>,
    plan: Seq<(u32, u32, u32)>,
    chosen: Seq<u32>,
    tiles: Seq<u32>,
)
    requires
        f.wf(),
        pattern.wf(),
        out_w >= f.off(),
        out_h >= f.off(),
        out_w <= out_h,
        forall|a: int|
            0 <= a < f.allowed_seq().len() ==> (#[trigger] f.allowed_seq()[a] as int)
                < pattern.pattern_count(),
        plan.len() == 2 * out_w * f.allowed_seq().len(),
        forall|i: int| 0 <= i < plan.len() ==> plan[i] == f.plan_entry(out_w, out_h, i),
        d.len() == out_w * out_h,
        apply_plan(d, out_w as int, pattern.pattern_count(), plan) == Some(d2),
        chosen.len() == d.len(),
        forall|c: int| 0 <= c < chosen.len() ==> (#[trigger] chosen[c] as int) < pattern.pattern_count(),
        forall|c: int| 0 <= c < chosen.len() ==> d2[c][#[trigger] chosen[c] as int],
        tiles.len() == chosen.len(),
        forall|c: int|
            0 <= c < tiles.len() ==> #[trigger] tiles[c] == pattern.values()[chosen[c] as int],
    ensures
        forall|x: int|
            0 <= x < out_w ==> f.allowed().contains(
                #[trigger] chosen[(out_h - f.off()) * out_w + x],
            ),
        forall|y: int|
            0 <= y < out_w ==> f.allowed().contains(
                #[trigger] chosen[y * out_w + (out_w - f.off())],
            ),
        forall|x: int|
            0 <= x < out_w ==> exists|id: u32|
                f.allowed().contains(id) && #[trigger] tiles[(out_h - f.off()) * out_w + x]
                    == pattern.values()[id as int],
        forall|y: int|
            0 <= y < out_w ==> exists|id: u32|
                f.allowed().contains(id) && #[trigger] tiles[y * out_w + (out_w - f.off())]
                    == pattern.values()[id as int],
{
    let n = f.allowed_seq().len() as int;
    let w = out_w as int;
    let h = out_h as int;
    let p = pattern.pattern_count();
    lemma_plan_entries_ok(f, out_w, out_h, plan, d.len() as int, p);
    lemma_collapse_respects_plan(d, w, p, plan, d2, chosen);
    assert forall|x: int|
        0 <= x < out_w implies f.allowed().contains(
        #[trigger] chosen[(out_h - f.off()) * out_w + x],
    ) by {
        let i = x * n;
        assert(0 <= x * n && x * n < 2 * w * n) by (nonlinear_arith)
            requires
                0 <= x < w,
                n >= 1,
        ;
        assert(0 <= i < plan.len());
        lemma_fundamental_div_mod_converse(i, n, x, 0);
        let e = plan[i];
        assert(e == f.plan_entry(out_w, out_h, i));
        assert(e.0 == x as u32);
        assert(e.1 == (h - f.off()) as u32);
        assert(e.2 == f.allowed_seq()[0]);
        assert(entry_cell(e, w) == (h - f.off()) * w + x);
        assert(chosen[(h - f.off()) * w + x] == e.2);
        assert(f.allowed_seq().contains(e.2));
    }
    assert forall|y: int|
        0 <= y < out_w implies f.allowed().contains(
        #[trigger] chosen[y * out_w + (out_w - f.off())],
    ) by {
        let i = (w + y) * n;
        assert(0 <= (w + y) * n && (w + y) * n < 2 * w * n) by (nonlinear_arith)
            requires
                0 <= y < w,
                n >= 1,
        ;
        assert(0 <= i < plan.len());
        lemma_fundamental_div_mod_converse(i, n, w + y, 0);
        let e = plan[i];
        assert(e == f.plan_entry(out_w, out_h, i));
        assert(e.0 == (w - f.off()) as u32);
        assert(e.1 == y as u32);
        assert(e.2 == f.allowed_seq()[0]);
        assert(entry_cell(e, w) == y * w + (w - f.off()));
        assert(chosen[y * w + (w - f.off())] == e.2);
        assert(f.allowed_seq().contains(e.2));
    }
    assert forall|x: int|
        0 <= x < out_w implies exists|id: u32|
        f.allowed().contains(id) && #[trigger] tiles[(out_h - f.off()) * out_w + x]
            == pattern.values()[id as int] by {
        let c = (h - f.off()) * w + x;
        assert(0 <= (h - f.off()) * w + x && (h - f.off()) * w + x < w * h) by (nonlinear_arith)
            requires
                0 <= x < w,
                1 <= f.off() <= h,
        ;
        assert(0 <= c < tiles.len());
        let id = chosen[c];
        assert(f.allowed().contains(id) && tiles[c] == pattern.values()[id as int]);
    }
    assert forall|y: int|
        0 <= y < out_w implies exists|id: u32|
        f.allowed().contains(id) && #[trigger] tiles[y * out_w + (out_w - f.off())]
            == pattern.values()[id as int] by {
        let c = y * w + (w - f.off());
        assert(0 <= y * w + (w - f.off()) && y * w + (w - f.off()) < w * h) by (nonlinear_arith)
            requires
                0 <= y < w <= h,
                1 <= f.off() <= w,
        ;
        assert(0 <= c < tiles.len());
        let id = chosen[c];
        assert(f.allowed().contains(id) && tiles[c] == pattern.values()[id as int]);
    }
}

/// Whether `v` holds `x`.
fn contains_u32(v: &Vec<u32>, x: u32) -> (r: bool)
    ensures
        r == v@.contains(x),
{
    let mut i: usize = 0;
    while i < v.len()
        invariant
            i <= v@.len(),
            forall|a: int| 0 <= a < i ==> v@[a] != x,
        decreases v@.len() - i,
    {
        if v[i] == x {
            return true;
        }
        i += 1;
    }
    false
}

} // verus!
