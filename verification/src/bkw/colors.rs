//! The recoloring graph of a program: an edge from each color read to
//! the color printed over it. A nonblank color that no chain of
//! recolorings turns back into blank can never be erased once printed.
use vstd::prelude::*;

use crate::bkw::prints_below;
use crate::instrs::{Instr, Slot};
use crate::prog::Prog;

verus! {

/// Whether some instruction reads `a` and prints `b`.
pub open spec fn recolors(es: Seq<(Slot, Instr)>, a: int, b: int) -> bool {
    exists|i: int| 0 <= i < es.len() && (#[trigger] es[i]).0.1 == a && es[i].1.0 == b
}

/// Whether a relation on the colors below `n` is reflexive, transitive
/// and holds every recoloring.
pub open spec fn recolor_closed(es: Seq<(Slot, Instr)>, n: int, rel: spec_fn(int, int) -> bool) -> bool {
    &&& forall|a: int| 0 <= a < n ==> #[trigger] rel(a, a)
    &&& forall|a: int, b: int| 0 <= a < n && 0 <= b < n && #[trigger] recolors(es, a, b) ==> rel(a, b)
    &&& forall|a: int, k: int, b: int| #![trigger rel(a, k), rel(k, b)]
        0 <= a < n && 0 <= k < n && 0 <= b < n && rel(a, k) && rel(k, b) ==> rel(a, b)
}

/// Whether color `b` can come out of color `a` by a chain of recolorings
/// (in the least reflexive and transitive relation that holds them all).
pub open spec fn recolor_reach(es: Seq<(Slot, Instr)>, n: int, a: int, b: int) -> bool {
    forall|rel: spec_fn(int, int) -> bool| #[trigger] recolor_closed(es, n, rel) ==> rel(a, b)
}

/// Whether some instruction prints `a`.
pub open spec fn printed(es: Seq<(Slot, Instr)>, a: int) -> bool {
    exists|i: int| 0 <= i < es.len() && (#[trigger] es[i]).1.0 == a
}

/// An entry of a square boolean matrix.
pub open spec fn at(m: Seq<Vec<bool>>, a: int, b: int) -> bool {
    m[a]@[b]
}

/// A square matrix of side `n`.
pub open spec fn square(m: Seq<Vec<bool>>, n: int) -> bool {
    m.len() == n && forall|a: int| 0 <= a < n ==> (#[trigger] m[a])@.len() == n
}

/// Every entry of the matrix is in every closed relation.
pub open spec fn below_closed(es: Seq<(Slot, Instr)>, m: Seq<Vec<bool>>, n: int) -> bool {
    forall|rel: spec_fn(int, int) -> bool| #[trigger] recolor_closed(es, n, rel) ==>
        forall|a: int, b: int| 0 <= a < n && 0 <= b < n && #[trigger] at(m, a, b) ==> rel(a, b)
}

/// A row of `n` false entries.
fn false_row(n: usize) -> (r: Vec<bool>)
    ensures
        r@.len() == n,
        forall|b: int| 0 <= b < n ==> !r@[b],
{
    let mut r: Vec<bool> = Vec::new();
    while r.len() < n
        invariant
            r@.len() <= n,
            forall|b: int| 0 <= b < r@.len() ==> !r@[b],
        decreases n - r@.len(),
    {
        r.push(false);
    }
    r
}

/// Sets one entry of a square matrix.
fn set_entry(m: &mut Vec<Vec<bool>>, a: usize, b: usize, Ghost(n): Ghost<int>)
    requires
        square(old(m)@, n),
        a < n,
        b < n,
    ensures
        square(final(m)@, n),
        forall|x: int, y: int| 0 <= x < n && 0 <= y < n ==> #[trigger] at(final(m)@, x, y)
            == ((x == a && y == b) || at(old(m)@, x, y)),
{
    let mut row = m[a].clone();
    assert(row@ == old(m)@[a as int]@);
    row.set(b, true);
    m.set(a, row);
    assert forall|x: int, y: int| 0 <= x < n && 0 <= y < n implies #[trigger] at(m@, x, y)
        == ((x == a && y == b) || at(old(m)@, x, y)) by {
        if x == a {
            assert(m@[x]@ == old(m)@[x]@.update(b as int, true));
        } else {
            assert(m@[x] == old(m)@[x]);
        }
    }
}

/// The row `a` joined with the row `k`, entry by entry.
fn join_rows(ra: &Vec<bool>, rk: &Vec<bool>) -> (r: Vec<bool>)
    requires
        ra@.len() == rk@.len(),
    ensures
        r@.len() == ra@.len(),
        forall|b: int| 0 <= b < ra@.len() ==> r@[b] == (ra@[b] || rk@[b]),
{
    let mut r: Vec<bool> = Vec::new();
    let mut b: usize = 0;
    while b < ra.len()
        invariant
            ra@.len() == rk@.len(),
            b <= ra@.len(),
            r@.len() == b,
            forall|j: int| 0 <= j < b ==> r@[j] == (ra@[j] || rk@[j]),
        decreases ra@.len() - b,
    {
        r.push(ra[b] || rk[b]);
        b += 1;
    }
    r
}

/// For each pair of colors, whether the second can come out of the first
/// by a chain of recolorings (a color comes out of itself).
pub fn color_closure<const S: usize, const C: usize>(prog: &Prog<S, C>) -> (r: Vec<Vec<bool>>)
    requires
        prints_below(prog.instr_list(), C as int),
    ensures
        square(r@, C as int),
        forall|a: int, b: int| 0 <= a < C && 0 <= b < C ==> #[trigger] at(r@, a, b)
            == recolor_reach(prog.entries(), C as int, a, b),
{
    let es = prog.iter();
    let ghost n = C as int;
    proof {
        use_type_invariant(prog);
        crate::bkw::lemma_entries_instrs(*prog);
        crate::bkw::lemma_entry_slots(*prog);
    }
    let mut m: Vec<Vec<bool>> = Vec::new();
    while m.len() < C
        invariant
            m@.len() <= C,
            forall|a: int| 0 <= a < m@.len() ==> (#[trigger] m@[a])@.len() == C
                && forall|b: int| 0 <= b < C ==> !m@[a]@[b],
        decreases C - m@.len(),
    {
        m.push(false_row(C));
    }
    // The edges, and every color to itself.
    let mut i: usize = 0;
    while i < es.len()
        invariant
            n == C as int,
            es@ == prog.entries(),
            prints_below(prog.instr_list(), n),
            forall|j: int| 0 <= j < es@.len() ==> (#[trigger] es@[j]).1 == prog.instr_list()[j],
            forall|j: int| 0 <= j < es@.len() ==> ((#[trigger] es@[j]).0.1 as int) < C,
            es@.len() == prog.instr_list().len(),
            i <= es@.len(),
            square(m@, n),
            forall|j: int| 0 <= j < i ==> #[trigger] at(m@, es@[j].0.1 as int, es@[j].1.0 as int),
            forall|a: int, b: int| 0 <= a < n && 0 <= b < n && #[trigger] at(m@, a, b) ==> recolors(es@, a, b),
        decreases es@.len() - i,
    {
        let ((_, read), (pr, _, _)) = es[i];
        assert(es@[i as int].1 == prog.instr_list()[i as int]);
        assert((pr as int) < n);
        let ghost before = m@;
        set_entry(&mut m, read as usize, pr as usize, Ghost(n));
        proof {
            assert forall|j: int| 0 <= j < i + 1 implies #[trigger] at(m@, es@[j].0.1 as int, es@[j].1.0 as int) by {
                if j < i {
                    assert(at(before, es@[j].0.1 as int, es@[j].1.0 as int));
                    assert((es@[j].1.0 as int) < n) by {
                        assert(es@[j].1 == prog.instr_list()[j]);
                    }
                }
            }
            assert forall|a: int, b: int| 0 <= a < n && 0 <= b < n && #[trigger] at(m@, a, b) implies recolors(es@, a, b) by {
                if a == read && b == pr {
                    assert(es@[i as int].0.1 == a && es@[i as int].1.0 == b);
                } else {
                    assert(at(before, a, b));
                }
            }
        }
        i += 1;
    }
    assert forall|j: int| 0 <= j < es@.len() implies ((#[trigger] es@[j]).0.1 as int) < n && (es@[j].1.0 as int) < n by {
        assert(es@[j].1 == prog.instr_list()[j]);
    }
    let mut a: usize = 0;
    while a < C
        invariant
            n == C as int,
            es@ == prog.entries(),
            forall|j: int| 0 <= j < es@.len() ==> ((#[trigger] es@[j]).0.1 as int) < n && (es@[j].1.0 as int) < n,
            a <= C,
            square(m@, n),
            forall|j: int| 0 <= j < es@.len() ==> #[trigger] at(m@, es@[j].0.1 as int, es@[j].1.0 as int),
            forall|x: int| 0 <= x < a ==> #[trigger] at(m@, x, x),
            forall|x: int, y: int| 0 <= x < n && 0 <= y < n && #[trigger] at(m@, x, y) ==> x == y || recolors(es@, x, y),
        decreases C - a,
    {
        let ghost before = m@;
        set_entry(&mut m, a, a, Ghost(n));
        proof {
            assert forall|j: int| 0 <= j < es@.len() implies #[trigger] at(m@, es@[j].0.1 as int, es@[j].1.0 as int) by {
                assert(at(before, es@[j].0.1 as int, es@[j].1.0 as int));
            }
            assert forall|x: int| 0 <= x < a + 1 implies #[trigger] at(m@, x, x) by {
                if x < a {
                    assert(at(before, x, x));
                }
            }
            assert forall|x: int, y: int| 0 <= x < n && 0 <= y < n && #[trigger] at(m@, x, y) implies x == y || recolors(es@, x, y) by {
                if !(x == a && y == a) {
                    assert(at(before, x, y));
                }
            }
        }
        a += 1;
    }
    proof {
        assert forall|rel: spec_fn(int, int) -> bool| #[trigger] recolor_closed(es@, n, rel) implies
            forall|x: int, y: int| 0 <= x < n && 0 <= y < n && #[trigger] at(m@, x, y) ==> rel(x, y) by {
            assert forall|x: int, y: int| 0 <= x < n && 0 <= y < n && #[trigger] at(m@, x, y) implies rel(x, y) by {
                if x == y {
                    assert(rel(x, x));
                } else {
                    assert(recolors(es@, x, y));
                }
            }
        }
    }
    // Warshall: after round `k`, every path through colors below `k` is
    // closed.
    let mut k: usize = 0;
    while k < C
        invariant
            n == C as int,
            es@ == prog.entries(),
            forall|j: int| 0 <= j < es@.len() ==> ((#[trigger] es@[j]).0.1 as int) < n && (es@[j].1.0 as int) < n,
            k <= C,
            square(m@, n),
            forall|j: int| 0 <= j < es@.len() ==> #[trigger] at(m@, es@[j].0.1 as int, es@[j].1.0 as int),
            forall|x: int| 0 <= x < n ==> #[trigger] at(m@, x, x),
            below_closed(es@, m@, n),
            forall|x: int, j: int, y: int| #![trigger at(m@, x, j), at(m@, j, y)]
                0 <= x < n && 0 <= j < k && 0 <= y < n && at(m@, x, j) && at(m@, j, y) ==> at(m@, x, y),
        decreases C - k,
    {
        let ghost m0 = m@;
        let krow = m[k].clone();
        assert(krow@ == m0[k as int]@);
        let mut x: usize = 0;
        while x < C
            invariant
                n == C as int,
                k < C,
                x <= C,
                square(m0, n),
                square(m@, n),
                krow@ == m0[k as int]@,
                forall|z: int| 0 <= z < n ==> #[trigger] at(m0, z, z),
                forall|z: int, y: int| 0 <= z < x && 0 <= y < n ==> #[trigger] at(m@, z, y)
                    == (at(m0, z, y) || (at(m0, z, k as int) && at(m0, k as int, y))),
                forall|z: int, y: int| x <= z < n && 0 <= y < n ==> #[trigger] at(m@, z, y) == at(m0, z, y),
            decreases C - x,
        {
            if m[x][k] {
                let joined = join_rows(&m[x], &krow);
                let ghost before = m@;
                m.set(x, joined);
                proof {
                    assert forall|z: int, y: int| 0 <= z < x + 1 && 0 <= y < n implies #[trigger] at(m@, z, y)
                        == (at(m0, z, y) || (at(m0, z, k as int) && at(m0, k as int, y))) by {
                        if z < x {
                            assert(m@[z] == before[z]);
                            assert(at(m@, z, y) == at(before, z, y));
                        } else {
                            assert(at(before, z, k as int) == at(m0, z, k as int));
                            assert(at(before, z, y) == at(m0, z, y));
                        }
                    }
                    assert forall|z: int, y: int| x + 1 <= z < n && 0 <= y < n implies #[trigger] at(m@, z, y) == at(m0, z, y) by {
                        assert(m@[z] == before[z]);
                        assert(at(m@, z, y) == at(before, z, y));
                    }
                }
            } else {
                proof {
                    assert forall|y: int| 0 <= y < n implies #[trigger] at(m@, x as int, y)
                        == (at(m0, x as int, y) || (at(m0, x as int, k as int) && at(m0, k as int, y))) by {
                        assert(at(m@, x as int, k as int) == at(m0, x as int, k as int));
                    }
                }
            }
            x += 1;
        }
        proof {
            let m1 = m@;
            let kk = k as int;
            assert forall|z: int, y: int| 0 <= z < n && 0 <= y < n implies #[trigger] at(m1, z, y)
                == (at(m0, z, y) || (at(m0, z, kk) && at(m0, kk, y))) by {
            }
            assert forall|z: int| 0 <= z < n implies #[trigger] at(m1, z, kk) == at(m0, z, kk) by {
                assert(at(m0, kk, kk));
            }
            assert forall|y: int| 0 <= y < n implies #[trigger] at(m1, kk, y) == at(m0, kk, y) by {
                assert(at(m0, kk, kk));
            }
            assert forall|j: int| 0 <= j < es@.len() implies #[trigger] at(m1, es@[j].0.1 as int, es@[j].1.0 as int) by {
                assert(at(m0, es@[j].0.1 as int, es@[j].1.0 as int));
            }
            assert forall|z: int| 0 <= z < n implies #[trigger] at(m1, z, z) by {
                assert(at(m0, z, z));
            }
            assert forall|rel: spec_fn(int, int) -> bool| #[trigger] recolor_closed(es@, n, rel) implies
                forall|z: int, y: int| 0 <= z < n && 0 <= y < n && #[trigger] at(m1, z, y) ==> rel(z, y) by {
                assert forall|z: int, y: int| 0 <= z < n && 0 <= y < n && #[trigger] at(m1, z, y) implies rel(z, y) by {
                    if at(m0, z, y) {
                    } else {
                        assert(at(m0, z, kk) && at(m0, kk, y));
                        assert(rel(z, kk));
                        assert(rel(kk, y));
                    }
                }
            }
            assert forall|z: int, j: int, y: int| #![trigger at(m1, z, j), at(m1, j, y)]
                0 <= z < n && 0 <= j < kk + 1 && 0 <= y < n && at(m1, z, j) && at(m1, j, y) implies at(m1, z, y) by {
                assert(at(m1, z, y) == (at(m0, z, y) || (at(m0, z, kk) && at(m0, kk, y))));
                if j == kk {
                    assert(at(m0, z, kk));
                    assert(at(m0, kk, y));
                } else {
                    assert(at(m1, z, j) == (at(m0, z, j) || (at(m0, z, kk) && at(m0, kk, j))));
                    assert(at(m1, j, y) == (at(m0, j, y) || (at(m0, j, kk) && at(m0, kk, y))));
                    if at(m0, z, j) && at(m0, j, y) {
                        assert(at(m0, z, y));
                    } else if at(m0, z, j) && at(m0, j, kk) && at(m0, kk, y) {
                        assert(at(m0, z, kk));
                    } else if at(m0, z, kk) && at(m0, kk, j) && at(m0, j, y) {
                        assert(at(m0, kk, y));
                    }
                }
            }
        }
        k += 1;
    }
    proof {
        let m1 = m@;
        let rel = |x: int, y: int| 0 <= x < n && 0 <= y < n && at(m1, x, y);
        assert(recolor_closed(es@, n, rel)) by {
            assert forall|x: int, y: int| 0 <= x < n && 0 <= y < n && #[trigger] recolors(es@, x, y) implies rel(x, y) by {
                let j = choose|j: int| 0 <= j < es@.len() && (#[trigger] es@[j]).0.1 == x && es@[j].1.0 == y;
                assert(at(m1, es@[j].0.1 as int, es@[j].1.0 as int));
            }
            assert forall|x: int, j: int, y: int| #![trigger rel(x, j), rel(j, y)]
                0 <= x < n && 0 <= j < n && 0 <= y < n && rel(x, j) && rel(j, y) implies rel(x, y) by {
                assert(at(m1, x, j) && at(m1, j, y));
            }
        }
        assert forall|x: int, y: int| 0 <= x < C && 0 <= y < C implies #[trigger] at(m1, x, y)
            == recolor_reach(prog.entries(), n, x, y) by {
            if at(m1, x, y) {
                assert forall|r2: spec_fn(int, int) -> bool| #[trigger] recolor_closed(es@, n, r2) implies r2(x, y) by {
                }
            } else {
                assert(!rel(x, y));
            }
        }
    }
    m
}

/// For each color, whether it is nonblank and no chain of recolorings
/// turns it into blank.
pub fn unerasable(clo: &Vec<Vec<bool>>, Ghost(n): Ghost<int>) -> (r: Vec<bool>)
    requires
        square(clo@, n),
    ensures
        r@.len() == n,
        forall|a: int| 0 <= a < n ==> r@[a] == (a != 0 && !at(clo@, a, 0)),
{
    let mut r: Vec<bool> = Vec::new();
    let mut a: usize = 0;
    while a < clo.len()
        invariant
            square(clo@, n),
            a <= n,
            r@.len() == a,
            forall|x: int| 0 <= x < a ==> r@[x] == (x != 0 && !at(clo@, x, 0)),
        decreases n - a,
    {
        assert(clo@[a as int]@.len() == n);
        r.push(a != 0 && !clo[a][0]);
        a += 1;
    }
    r
}

/// For each color below `n`, whether some instruction prints it.
pub fn printed_colors<const S: usize, const C: usize>(prog: &Prog<S, C>) -> (r: Vec<bool>)
    ensures
        r@.len() == C,
        forall|a: int| 0 <= a < C ==> r@[a] == printed(prog.entries(), a),
{
    let es = prog.iter();
    let mut r: Vec<bool> = Vec::new();
    while r.len() < C
        invariant
            r@.len() <= C,
            forall|a: int| 0 <= a < r@.len() ==> !r@[a],
        decreases C - r@.len(),
    {
        r.push(false);
    }
    let mut i: usize = 0;
    while i < es.len()
        invariant
            i <= es@.len(),
            es@ == prog.entries(),
            r@.len() == C,
            forall|a: int| 0 <= a < C ==> r@[a] == exists|j: int| 0 <= j < i && (#[trigger] es@[j]).1.0 == a,
        decreases es@.len() - i,
    {
        let pr = es[i].1.0;
        if (pr as usize) < C {
            r.set(pr as usize, true);
        }
        proof {
            assert forall|a: int| 0 <= a < C implies r@[a] == exists|j: int| 0 <= j < i + 1 && (#[trigger] es@[j]).1.0 == a by {
                if a == pr {
                    assert(es@[i as int].1.0 == a);
                } else if r@[a] {
                    let j = choose|j: int| 0 <= j < i && (#[trigger] es@[j]).1.0 == a;
                    assert(0 <= j < i + 1 && es@[j].1.0 == a);
                }
            }
        }
        i += 1;
    }
    r
}

impl<const S: usize, const C: usize> Prog<S, C> {
    /// Whether the program prints some nonblank color that no chain of
    /// recolorings turns back into blank; such a program never blanks the
    /// tape again once it has printed it.
    pub fn cant_blank_by_color_graph(&self) -> (r: bool)
        requires
            prints_below(self.instr_list(), C as int),
        ensures
            r == exists|a: int| 1 <= a < C && #[trigger] printed(self.entries(), a)
                && !recolor_reach(self.entries(), C as int, a, 0),
    {
        let clo = color_closure(self);
        let bad = unerasable(&clo, Ghost(C as int));
        let pr = printed_colors(self);
        let mut a: usize = 1;
        while a < C
            invariant
                1 <= a,
                bad@.len() == C,
                pr@.len() == C,
                square(clo@, C as int),
                forall|x: int| 0 <= x < C ==> bad@[x] == (x != 0 && !at(clo@, x, 0)),
                forall|x: int| 0 <= x < C ==> pr@[x] == printed(self.entries(), x),
                forall|x: int, y: int| 0 <= x < C && 0 <= y < C ==> #[trigger] at(clo@, x, y)
                    == recolor_reach(self.entries(), C as int, x, y),
                forall|x: int| 1 <= x < a && x < C ==> !(#[trigger] printed(self.entries(), x)
                    && !recolor_reach(self.entries(), C as int, x, 0)),
            decreases C - a,
        {
            if bad[a] && pr[a] {
                assert(at(clo@, a as int, 0) == recolor_reach(self.entries(), C as int, a as int, 0));
                return true;
            }
            assert(at(clo@, a as int, 0) == recolor_reach(self.entries(), C as int, a as int, 0));
            a += 1;
        }
        false
    }
}

} // verus!
