use vstd::prelude::*;

use vstd::pervasive::VecAdditionalExecFns;

verus! {

broadcast use vstd::std_specs::vec::group_vec_axioms;

// A wave assigns each output cell the set of pattern identities still
// possible there; it shrinks monotonically while the engine works. This
// module models the wave as one row of possibility flags per cell and gives
// the per-step elimination its exact meaning: an instruction `(x, y, keep)`
// eliminates every identity other than `keep` at `(x, y)`, and contradicts
// when `keep` is no longer possible there.

/// The row-major cell index an instruction addresses, for output width `w`.
pub open spec fn entry_cell(e: (u32, u32, u32), w: int) -> int {
    e.1 * w + e.0
}

/// An instruction addresses an existing cell and a known identity.
pub open spec fn entry_ok(e: (u32, u32, u32), w: int, len: int, p: int) -> bool {
    &&& (e.0 as int) < w
    &&& 0 <= entry_cell(e, w) < len
    &&& (e.2 as int) < p
}

pub open spec fn all_entries_ok(s: Seq<(u32, u32, u32)>, w: int, len: int, p: int) -> bool {
    forall|i: int| 0 <= i < s.len() ==> entry_ok(#[trigger] s[i], w, len, p)
}

/// The domain row that allows exactly `keep`, out of `p` identities.
pub open spec fn restrict_row(p: int, keep: u32) -> Seq<bool> {
    Seq::new(p as nat, |j: int| j == keep as int)
}

/// One elimination: if `keep` is still possible at its cell, the cell's
/// domain becomes exactly `{keep}`; otherwise the wave contradicts.
pub open spec fn apply_entry(d: Seq<Seq<bool>>, w: int, p: int, e: (u32, u32, u32)) -> Option<
    Seq<Seq<bool>>,
> {
    let c = entry_cell(e, w);
    if d[c][e.2 as int] {
        Some(d.update(c, restrict_row(p, e.2)))
    } else {
        None
    }
}

/// The eliminations of a whole plan, in order; the first contradiction
/// fails the whole application.
pub open spec fn apply_plan(
    d: Seq<Seq<bool>>,
    w: int,
    p: int,
    s: Seq<(u32, u32, u32)>,
) -> Option<Seq<Seq<bool>>>
    decreases s.len(),
{
    if s.len() == 0 {
        Some(d)
    } else {
        match apply_entry(d, w, p, s[0]) {
            None => None,
            Some(d2) => apply_plan(d2, w, p, s.drop_first()),
        }
    }
}

/// Applying `s.push(e)` is applying `s`, then `e`.
pub proof fn lemma_apply_plan_snoc(
    d: Seq<Seq<bool>>,
    w: int,
    p: int,
    s: Seq<(u32, u32, u32)>,
    e: (u32, u32, u32),
)
    ensures
        apply_plan(d, w, p, s.push(e)) == (match apply_plan(d, w, p, s) {
            None => None,
            Some(d2) => apply_entry(d2, w, p, e),
        }),
    decreases s.len(),
{
    reveal_with_fuel(apply_plan, 3);
    assert(s.push(e).len() == s.len() + 1);
    if s.len() == 0 {
        assert(s.push(e)[0] == e);
        assert(s.push(e).drop_first() =~= Seq::<(u32, u32, u32)>::empty());
        assert(s.push(e).drop_first().len() == 0);
    } else {
        assert(s.push(e)[0] == s[0]);
        assert(s.push(e).drop_first() =~= s.drop_first().push(e));
        match apply_entry(d, w, p, s[0]) {
            None => {},
            Some(d2) => {
                lemma_apply_plan_snoc(d2, w, p, s.drop_first(), e);
            },
        }
    }
}

/// A contradiction reached after some prefix fails the whole plan.
pub proof fn lemma_apply_plan_fails(
    d: Seq<Seq<bool>>,
    w: int,
    p: int,
    s: Seq<(u32, u32, u32)>,
    i: int,
    m: Seq<Seq<bool>>,
)
    requires
        0 <= i < s.len(),
        apply_plan(d, w, p, s.take(i)) == Some(m),
        apply_entry(m, w, p, s[i]) is None,
    ensures
        apply_plan(d, w, p, s) is None,
    decreases s.len(),
{
    if i == 0 {
        assert(s.take(0) =~= Seq::<(u32, u32, u32)>::empty());
        assert(m == d);
    } else {
        assert(s.take(i)[0] == s[0]);
        match apply_entry(d, w, p, s[0]) {
            None => {},
            Some(d2) => {
                assert(s.take(i).drop_first() =~= s.drop_first().take(i - 1));
                assert(s.drop_first()[i - 1] == s[i]);
                lemma_apply_plan_fails(d2, w, p, s.drop_first(), i - 1, m);
            },
        }
    }
}

/// Dropping the first instruction keeps the rest well-aimed.
proof fn lemma_entries_ok_drop(s: Seq<(u32, u32, u32)>, w: int, len: int, p: int)
    requires
        s.len() > 0,
        all_entries_ok(s, w, len, p),
    ensures
        all_entries_ok(s.drop_first(), w, len, p),
{
    assert forall|i: int|
        0 <= i < s.drop_first().len() implies entry_ok(#[trigger] s.drop_first()[i], w, len, p) by {
        assert(s.drop_first()[i] == s[i + 1]);
        assert(entry_ok(s[i + 1], w, len, p));
    }
}

/// A cell already restricted to a single identity is never changed by a
/// successful application: every instruction aimed at it must keep that same
/// identity, and instructions aimed elsewhere do not touch it.
pub proof fn lemma_singleton_stable(
    d: Seq<Seq<bool>>,
    w: int,
    p: int,
    s: Seq<(u32, u32, u32)>,
    d2: Seq<Seq<bool>>,
    c: int,
    k: u32,
)
    requires
        apply_plan(d, w, p, s) == Some(d2),
        all_entries_ok(s, w, d.len() as int, p),
        0 <= c < d.len(),
        (k as int) < p,
        d[c] == restrict_row(p, k),
    ensures
        d2.len() == d.len(),
        d2[c] == restrict_row(p, k),
    decreases s.len(),
{
    if s.len() == 0 {
    } else {
        let e = s[0];
        assert(entry_ok(e, w, d.len() as int, p));
        match apply_entry(d, w, p, e) {
            None => {},
            Some(d1) => {
                assert(d1.len() == d.len());
                if entry_cell(e, w) == c {
                    assert(restrict_row(p, k)[e.2 as int] == (e.2 as int == k as int));
                    assert(e.2 == k);
                    assert(d1[c] == restrict_row(p, k));
                } else {
                    assert(d1[c] == d[c]);
                }
                lemma_entries_ok_drop(s, w, d.len() as int, p);
                lemma_singleton_stable(d1, w, p, s.drop_first(), d2, c, k);
            },
        }
    }
}

/// After a successful application, every instructed cell's domain is exactly
/// the singleton of the identity the plan keeps there.
pub proof fn lemma_apply_plan_post(
    d: Seq<Seq<bool>>,
    w: int,
    p: int,
    s: Seq<(u32, u32, u32)>,
    d2: Seq<Seq<bool>>,
)
    requires
        apply_plan(d, w, p, s) == Some(d2),
        all_entries_ok(s, w, d.len() as int, p),
    ensures
        d2.len() == d.len(),
        forall|i: int|
            0 <= i < s.len() ==> d2[entry_cell(#[trigger] s[i], w)] == restrict_row(p, s[i].2),
    decreases s.len(),
{
    if s.len() == 0 {
    } else {
        let e = s[0];
        match apply_entry(d, w, p, e) {
            None => {},
            Some(d1) => {
                assert(entry_ok(e, w, d.len() as int, p));
                assert(d1.len() == d.len());
                lemma_entries_ok_drop(s, w, d.len() as int, p);
                lemma_apply_plan_post(d1, w, p, s.drop_first(), d2);
                assert(d1[entry_cell(e, w)] == restrict_row(p, e.2));
                lemma_singleton_stable(d1, w, p, s.drop_first(), d2, entry_cell(e, w), e.2);
                assert forall|i: int|
                    0 <= i < s.len() implies d2[entry_cell(#[trigger] s[i], w)] == restrict_row(
                    p,
                    s[i].2,
                ) by {
                    if i > 0 {
                        assert(s.drop_first()[i - 1] == s[i]);
                    }
                }
            },
        }
    }
}

/// A plan whose every instruction leaves the wave unchanged applies
/// successfully and changes nothing.
proof fn lemma_apply_plan_fixed(d: Seq<Seq<bool>>, w: int, p: int, s: Seq<(u32, u32, u32)>)
    requires
        forall|i: int| 0 <= i < s.len() ==> apply_entry(d, w, p, #[trigger] s[i]) == Some(d),
    ensures
        apply_plan(d, w, p, s) == Some(d),
    decreases s.len(),
{
    if s.len() == 0 {
    } else {
        assert(apply_entry(d, w, p, s[0]) == Some(d));
        assert forall|i: int|
            0 <= i < s.drop_first().len() implies apply_entry(
            d,
            w,
            p,
            #[trigger] s.drop_first()[i],
        ) == Some(d) by {
            assert(s.drop_first()[i] == s[i + 1]);
        }
        lemma_apply_plan_fixed(d, w, p, s.drop_first());
    }
}

/// Idempotence of the per-step elimination: once a plan has applied
/// successfully, applying the same plan again succeeds and leaves every
/// domain exactly as it was — nothing shrinks further and nothing empties.
pub proof fn lemma_apply_plan_idempotent(
    d: Seq<Seq<bool>>,
    w: int,
    p: int,
    s: Seq<(u32, u32, u32)>,
    d2: Seq<Seq<bool>>,
)
    requires
        apply_plan(d, w, p, s) == Some(d2),
        all_entries_ok(s, w, d.len() as int, p),
    ensures
        apply_plan(d2, w, p, s) == Some(d2),
    decreases s.len(),
{
    lemma_apply_plan_post(d, w, p, s, d2);
    assert forall|i: int|
        0 <= i < s.len() implies apply_entry(d2, w, p, #[trigger] s[i]) == Some(d2) by {
        let e = s[i];
        let c = entry_cell(e, w);
        assert(entry_ok(e, w, d.len() as int, p));
        assert(d2[c] == restrict_row(p, e.2));
        assert(restrict_row(p, e.2)[e.2 as int]);
        assert(d2.update(c, restrict_row(p, e.2)) =~= d2);
    }
    lemma_apply_plan_fixed(d2, w, p, s);
}

/// Any collapse that respects a successfully applied plan chooses, at every
/// instructed cell, exactly the identity the plan keeps there.
pub proof fn lemma_collapse_respects_plan(
    d: Seq<Seq<bool>>,
    w: int,
    p: int,
    s: Seq<(u32, u32, u32)>,
    d2: Seq<Seq<bool>>,
    chosen: Seq<u32>,
)
    requires
        apply_plan(d, w, p, s) == Some(d2),
        all_entries_ok(s, w, d.len() as int, p),
        chosen.len() == d.len(),
        forall|c: int| 0 <= c < chosen.len() ==> (#[trigger] chosen[c] as int) < p,
        forall|c: int| 0 <= c < chosen.len() ==> d2[c][#[trigger] chosen[c] as int],
    ensures
        forall|i: int| 0 <= i < s.len() ==> chosen[entry_cell(#[trigger] s[i], w)] == s[i].2,
{
    lemma_apply_plan_post(d, w, p, s, d2);
    assert forall|i: int|
        0 <= i < s.len() implies chosen[entry_cell(#[trigger] s[i], w)] == s[i].2 by {
        let e = s[i];
        let c = entry_cell(e, w);
        assert(entry_ok(e, w, d.len() as int, p));
        assert(d2[c] == restrict_row(p, e.2));
        assert(d2[c][chosen[c] as int]);
        assert(chosen[c] as int == e.2 as int);
    }
}

/// An executable wave with one possibility row per cell, used to exercise
/// the per-step elimination without the engine.
pub struct WaveModel {
    width: u32,
    height: u32,
    patterns: usize,
    domains: Vec<Vec<bool>>,
}

impl WaveModel {
    pub closed spec fn w(&self) -> int {
        self.width as int
    }

    pub closed spec fn h(&self) -> int {
        self.height as int
    }

    pub closed spec fn pcount(&self) -> int {
        self.patterns as int
    }

    /// The per-cell domains, row-major.
    pub closed spec fn doms(&self) -> Seq<Seq<bool>> {
        self.domains.deep_view()
    }

    pub closed spec fn wf(&self) -> bool {
        &&& self.doms().len() == self.w() * self.h()
        &&& self.w() * self.h() <= usize::MAX
        &&& forall|c: int| 0 <= c < self.doms().len() ==> (#[trigger] self.doms()[c]).len() == self.pcount()
    }

    /// A fresh wave in which every identity is possible at every cell.
    pub fn new_full(width: u32, height: u32, patterns: usize) -> (r: WaveModel)
        requires
            width * height <= usize::MAX,
        ensures
            r.wf(),
            r.w() == width,
            r.h() == height,
            r.pcount() == patterns,
            forall|c: int, j: int|
                0 <= c < r.doms().len() && 0 <= j < patterns ==> (#[trigger] r.doms()[c][j]),
    {
        let total: usize = (width as usize) * (height as usize);
        let mut domains: Vec<Vec<bool>> = Vec::new();
        let mut c: usize = 0;
        while c < total
            invariant
                c <= total,
                domains@.len() == c,
                forall|a: int|
                    0 <= a < c ==> (#[trigger] domains@[a])@ == Seq::new(
                        patterns as nat,
                        |j: int| true,
                    ),
            decreases total - c,
        {
            let mut row: Vec<bool> = Vec::new();
            let mut j: usize = 0;
            while j < patterns
                invariant
                    j <= patterns,
                    row@ == Seq::new(j as nat, |a: int| true),
                decreases patterns - j,
            {
                row.push(true);
                proof {
                    assert(row@ =~= Seq::new(j as nat + 1, |a: int| true));
                }
                j += 1;
            }
            domains.push(row);
            c += 1;
        }
        let r = WaveModel { width, height, patterns, domains };
        proof {
            assert forall|c0: int, j: int|
                0 <= c0 < r.doms().len() && 0 <= j < patterns implies (#[trigger] r.doms()[c0][j]) by {
                assert(r.doms()[c0] == domains@[c0]@);
            }
            assert(r.wf()) by {
                assert forall|c0: int| 0 <= c0 < r.doms().len() implies (#[trigger] r.doms()[c0]).len()
                    == r.pcount() by {
                    assert(r.doms()[c0] == domains@[c0]@);
                }
            }
        }
        r
    }

    /// Apply a whole elimination plan, reporting the restricted wave, or
    /// nothing when an instruction contradicts.
    pub fn apply_forbid(&self, plan: &Vec<(u32, u32, u32)>) -> (r: Option<WaveModel>)
        requires
            self.wf(),
            all_entries_ok(plan@, self.w(), self.doms().len() as int, self.pcount()),
        ensures
            match apply_plan(self.doms(), self.w(), self.pcount(), plan@) {
                Some(d2) => {
                    &&& r is Some
                    &&& r.unwrap().wf()
                    &&& r.unwrap().w() == self.w()
                    &&& r.unwrap().h() == self.h()
                    &&& r.unwrap().pcount() == self.pcount()
                    &&& r.unwrap().doms() == d2
                },
                None => r is None,
            },
    {
        let mut domains = self.domains.clone();
        let ghost d0 = self.doms();
        proof {
            assert(domains.deep_view() =~= d0);
        }
        let mut i: usize = 0;
        while i < plan.len()
            invariant
                self.wf(),
                i <= plan@.len(),
                all_entries_ok(plan@, self.w(), d0.len() as int, self.pcount()),
                d0 == self.doms(),
                apply_plan(d0, self.w(), self.pcount(), plan@.take(i as int)) == Some(
                    domains.deep_view(),
                ),
                domains@.len() == d0.len(),
                forall|c: int|
                    0 <= c < domains@.len() ==> (#[trigger] domains.deep_view()[c]).len()
                        == self.pcount(),
            decreases plan@.len() - i,
        {
            let (x, y, keep) = plan[i];
            let ghost cur = domains.deep_view();
            proof {
                assert(entry_ok(plan@[i as int], self.w(), d0.len() as int, self.pcount()));
            }
            let c: usize = (y as usize) * (self.width as usize) + (x as usize);
            let row = &domains[c];
            if !row[keep as usize] {
                proof {
                    assert(apply_entry(cur, self.w(), self.pcount(), plan@[i as int]) is None);
                    lemma_apply_plan_fails(
                        d0,
                        self.w(),
                        self.pcount(),
                        plan@,
                        i as int,
                        cur,
                    );
                }
                return None;
            }
            let mut newrow: Vec<bool> = Vec::new();
            let mut j: usize = 0;
            while j < self.patterns
                invariant
                    j <= self.patterns,
                    newrow@ == Seq::new(j as nat, |a: int| a == keep as int),
                decreases self.patterns - j,
            {
                newrow.push(j == keep as usize);
                proof {
                    assert(newrow@ =~= Seq::new(j as nat + 1, |a: int| a == keep as int));
                }
                j += 1;
            }
            domains.set(c, newrow);
            proof {
                assert(newrow@ =~= restrict_row(self.pcount(), keep));
                assert(domains.deep_view() =~~= cur.update(
                    c as int,
                    restrict_row(self.pcount(), keep),
                ));
                assert(apply_entry(cur, self.w(), self.pcount(), plan@[i as int]) == Some(
                    domains.deep_view(),
                ));
                lemma_apply_plan_snoc(
                    d0,
                    self.w(),
                    self.pcount(),
                    plan@.take(i as int),
                    plan@[i as int],
                );
                assert(plan@.take(i as int).push(plan@[i as int]) =~= plan@.take(i as int + 1));
            }
            i += 1;
        }
        proof {
            assert(plan@.take(plan@.len() as int) =~= plan@);
        }
        Some(
            WaveModel {
                width: self.width,
                height: self.height,
                patterns: self.patterns,
                domains,
            },
        )
    }

    /// Whether identity `id` is still possible at cell `(x, y)`.
    pub fn possible(&self, x: u32, y: u32, id: usize) -> (r: bool)
        requires
            self.wf(),
            x < self.w(),
            y < self.h(),
            id < self.pcount(),
        ensures
            r == self.doms()[y * self.w() + x][id as int],
    {
        proof {
            assert(y * self.w() + x < self.w() * self.h()) by (nonlinear_arith)
                requires
                    0 <= x < self.w(),
                    0 <= y < self.h(),
            ;
            assert(self.domains@.len() == self.doms().len());
        }
        let c: usize = (y as usize) * (self.width as usize) + (x as usize);
        proof {
            assert(self.doms()[c as int].len() == self.domains@[c as int]@.len());
            assert(self.doms()[c as int][id as int] == self.domains@[c as int]@[id as int]);
        }
        self.domains[c][id]
    }
}

} // verus!
