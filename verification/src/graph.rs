//! The state graph of a program: which states an instruction leads to from
//! which.
use vstd::prelude::*;

pub mod abs;

use std::collections::{BTreeMap, BTreeSet};

use crate::bkw::targets_below;
use crate::instrs::{Instr, Slot, State};
use crate::prog::Prog;

verus! {

broadcast use vstd::std_specs::btree::group_btree_axioms, vstd::laws_cmp::group_laws_cmp;

/// Whether some instruction of state `src` leads to another state `dst`.
pub open spec fn exits(es: Seq<(Slot, Instr)>, src: State, dst: State) -> bool {
    src != dst && exists|i: int| 0 <= i < es.len() && (#[trigger] es[i]).0.0 == src && es[i].1.2 == dst
}

/// The states below `n` that `src` leads to, in increasing order.
pub open spec fn exit_upto(es: Seq<(Slot, Instr)>, src: State, n: int) -> Seq<State>
    decreases n,
{
    if n <= 0 {
        Seq::empty()
    } else {
        let prev = exit_upto(es, src, n - 1);
        if exits(es, src, (n - 1) as u8) { prev.push((n - 1) as u8) } else { prev }
    }
}

/// The states below `states` that lead to another.
pub open spec fn exit_states(es: Seq<(Slot, Instr)>, states: int) -> Set<State> {
    Set::new(|src: State| (src as int) < states && exit_upto(es, src, 256).len() > 0)
}

/// Whether a set of states is closed under exits.
pub open spec fn exit_closed(es: Seq<(Slot, Instr)>, set: spec_fn(State) -> bool) -> bool {
    forall|x: State, y: State| #![trigger set(x), exits(es, x, y)] set(x) && exits(es, x, y) ==> set(y)
}

/// Whether `b` is reached from `a` by exits (in every closed set holding
/// `a`).
pub open spec fn exit_reach(es: Seq<(Slot, Instr)>, a: State, b: State) -> bool {
    forall|set: spec_fn(State) -> bool| set(a) && #[trigger] exit_closed(es, set) ==> set(b)
}

/// Whether some instruction enters state `t`.
pub open spec fn entered(is: Seq<Instr>, t: State) -> bool {
    exists|i: int| 0 <= i < is.len() && (#[trigger] is[i]).2 == t
}

/// `todo` with each state of `xs` pushed in turn that is neither in
/// `reached` nor already in the list.
pub open spec fn push_new(todo: Seq<State>, reached: Set<State>, xs: Seq<State>) -> Seq<State>
    decreases xs.len(),
{
    if xs.len() == 0 {
        todo
    } else {
        let t = push_new(todo, reached, xs.drop_last());
        let x = xs.last();
        if !reached.contains(x) && !t.contains(x) { t.push(x) } else { t }
    }
}

/// Whether a depth-first search through exits, taking at most `n` states
/// off the end of `todo`, meets state 0: a state taken off that was
/// reached before is passed over, any other is marked reached and its
/// exits pushed as `push_new` does.
pub open spec fn conn_search(es: Seq<(Slot, Instr)>, todo: Seq<State>, reached: Set<State>, n: nat) -> bool
    decreases n,
{
    if n == 0 || todo.len() == 0 {
        false
    } else {
        let x = todo.last();
        let rest = todo.drop_last();
        if x == 0 {
            true
        } else if reached.contains(x) {
            conn_search(es, rest, reached, (n - 1) as nat)
        } else {
            conn_search(es, push_new(rest, reached.insert(x), exit_upto(es, x, 256)), reached.insert(x), (n - 1) as nat)
        }
    }
}

proof fn lemma_exit_upto(es: Seq<(Slot, Instr)>, src: State, n: int)
    requires
        0 <= n <= 256,
    ensures
        forall|j: int| 0 <= j < exit_upto(es, src, n).len() ==> (#[trigger] exit_upto(es, src, n)[j]) < n
            && exits(es, src, exit_upto(es, src, n)[j]),
        forall|a: int, b: int| 0 <= a < b < exit_upto(es, src, n).len() ==> exit_upto(es, src, n)[a] < exit_upto(es, src, n)[b],
        forall|t: State| (t as int) < n && #[trigger] exits(es, src, t) ==> exit_upto(es, src, n).contains(t),
    decreases n,
{
    if n > 0 {
        lemma_exit_upto(es, src, n - 1);
        let prev = exit_upto(es, src, n - 1);
        let cur = exit_upto(es, src, n);
        assert forall|t: State| (t as int) < n && #[trigger] exits(es, src, t) implies cur.contains(t) by {
            if (t as int) < n - 1 {
                let j = choose|j: int| 0 <= j < prev.len() && prev[j] == t;
                assert(cur[j] == t);
            } else {
                assert(cur[prev.len() as int] == t);
            }
        }
    }
}

/// Whether some instruction of `src` leads to `dst`.
fn leads_to(es: &Vec<(Slot, Instr)>, src: State, dst: State) -> (r: bool)
    ensures
        r == exits(es@, src, dst),
{
    if src == dst {
        return false;
    }
    let mut i: usize = 0;
    while i < es.len()
        invariant
            i <= es@.len(),
            src != dst,
            forall|j: int| 0 <= j < i ==> !((#[trigger] es@[j]).0.0 == src && es@[j].1.2 == dst),
        decreases es@.len() - i,
    {
        if es[i].0.0 == src && es[i].1.2 == dst {
            assert(es@[i as int].0.0 == src && es@[i as int].1.2 == dst);
            return true;
        }
        i += 1;
    }
    false
}

/// Whether a list holds a state.
fn holds(v: &Vec<State>, x: State) -> (r: bool)
    ensures
        r == v@.contains(x),
{
    let mut i: usize = 0;
    while i < v.len()
        invariant
            i <= v@.len(),
            forall|j: int| 0 <= j < i ==> v@[j] != x,
        decreases v@.len() - i,
    {
        if v[i] == x {
            assert(v@[i as int] == x);
            return true;
        }
        i += 1;
    }
    false
}

impl<const S: usize, const C: usize> Prog<S, C> {
    /// For each state that leads to another, the states it leads to, in
    /// increasing order and without repeats.
    pub fn get_exitpoints(&self) -> (r: BTreeMap<State, Vec<State>>)
        ensures
            r@.dom() == exit_states(self.entries(), S as int),
            forall|src: State| #[trigger] r@.contains_key(src) ==> r@[src]@ == exit_upto(self.entries(), src, 256),
    {
        proof {
            use_type_invariant(self);
        }
        let es = self.iter();
        let mut r: BTreeMap<State, Vec<State>> = BTreeMap::new();
        let mut src: usize = 0;
        while src < S
            invariant
                S <= 256,
                src <= S,
                es@ == self.entries(),
                r@.dom() == Set::new(|x: State| (x as int) < src && exit_upto(self.entries(), x, 256).len() > 0),
                forall|x: State| #[trigger] r@.contains_key(x) ==> r@[x]@ == exit_upto(self.entries(), x, 256),
            decreases S - src,
        {
            let ghost s8 = src as u8;
            let mut list: Vec<State> = Vec::new();
            let mut t: usize = 0;
            while t < 256
                invariant
                    src < S,
                    S <= 256,
                    t <= 256,
                    es@ == self.entries(),
                    list@ == exit_upto(self.entries(), src as u8, t as int),
                decreases 256 - t,
            {
                if leads_to(&es, src as u8, t as u8) {
                    list.push(t as u8);
                }
                t += 1;
            }
            if list.len() > 0 {
                r.insert(src as u8, list);
            }
            proof {
                assert(r@.dom() =~= Set::new(|x: State| (x as int) < src + 1 && exit_upto(self.entries(), x, 256).len() > 0));
            }
            src += 1;
        }
        assert(r@.dom() =~= exit_states(self.entries(), S as int));
        r
    }

    /// Whether state 0 is entered, every state leads to another, and state
    /// 0 is found from the last state by a search through exits of at most
    /// as many steps as there are states.
    pub fn is_connected(&self) -> (r: bool)
        requires
            targets_below(self.instr_list(), S as int),
        ensures
            !entered(self.instr_list(), 0) ==> !r,
            (exists|st: State| (st as int) < S && exit_upto(self.entries(), st, 256).len() == 0) ==> !r,
            r ==> S >= 1 && exit_reach(self.entries(), (S - 1) as u8, 0),
            r == {
                &&& entered(self.instr_list(), 0)
                &&& forall|st: State| (st as int) < S ==> exit_upto(self.entries(), st, 256).len() > 0
                &&& S >= 1
                &&& {
                    let last = (S - 1) as u8;
                    let first = exit_upto(self.entries(), last, 256);
                    first.contains(0) || conn_search(self.entries(), first, Set::empty().insert(last), S as nat)
                }
            },
    {
        proof {
            use_type_invariant(self);
            crate::bkw::lemma_entries_instrs(*self);
        }
        let instrs = self.instrs();
        let mut k: usize = 0;
        let mut enters_start = false;
        while k < instrs.len()
            invariant
                k <= instrs@.len(),
                instrs@ == self.instr_list(),
                enters_start == exists|j: int| 0 <= j < k && (#[trigger] instrs@[j]).2 == 0,
            decreases instrs@.len() - k,
        {
            if instrs[k].2 == 0 {
                enters_start = true;
            }
            k += 1;
        }
        if !enters_start {
            return false;
        }
        assert(S >= 1) by {
            if S == 0 {
                assert(self@.len() == 0);
            }
        }
        let ghost es = self.entries();
        let exitpoints = self.get_exitpoints();
        let mut st: usize = 0;
        while st < S
            invariant
                S <= 256,
                st <= S,
                es == self.entries(),
                exitpoints@.dom() == exit_states(es, S as int),
                forall|x: State| (x as int) < st ==> exitpoints@.contains_key(x),
            decreases S - st,
        {
            if !exitpoints.contains_key(&(st as u8)) {
                proof {
                    assert(!exit_states(es, S as int).contains(st as u8));
                    assert(exit_upto(es, st as u8, 256).len() == 0);
                    assert(((st as u8) as int) < S);
                    assert(!(forall|x: State| (x as int) < S ==> exit_upto(self.entries(), x, 256).len() > 0)) by {
                        if forall|x: State| (x as int) < S ==> exit_upto(self.entries(), x, 256).len() > 0 {
                            assert(exit_upto(self.entries(), st as u8, 256).len() > 0);
                        }
                    }
                }
                return false;
            }
            st += 1;
        }
        assert(entered(self.instr_list(), 0)) by {
            let j = choose|j: int| 0 <= j < k && (#[trigger] instrs@[j]).2 == 0;
            assert(self.instr_list()[j].2 == 0);
        }
        assert forall|x: State| (x as int) < S implies exit_upto(es, x, 256).len() > 0 by {
            assert(exitpoints@.contains_key(x));
            assert(exit_states(es, S as int).contains(x));
        }
        let last = (S - 1) as u8;
        let last_exits = exitpoints.get(&last).unwrap();
        assert(last_exits@ == exit_upto(es, last, 256));
        proof {
            lemma_exit_upto(es, last, 256);
        }
        if holds(last_exits, 0) {
            proof {
                let j = choose|j: int| 0 <= j < last_exits@.len() && last_exits@[j] == 0;
                assert(exits(es, last, 0));
            }
            return true;
        }
        let mut reached: BTreeSet<State> = BTreeSet::new();
        reached.insert(last);
        let mut todo: Vec<State> = last_exits.clone();
        assert(todo@ == last_exits@);
        assert(reached@ == Set::<State>::empty().insert(last));
        let ghost target = conn_search(es, last_exits@, reached@, S as nat);
        let mut n: usize = 0;
        while n < S
            invariant
                S <= 256,
                n <= S,
                es == self.entries(),
                targets_below(self.instr_list(), S as int),
                forall|j: int| 0 <= j < es.len() ==> (#[trigger] es[j]).1 == self.instr_list()[j],
                es.len() == self.instr_list().len(),
                exitpoints@.dom() == exit_states(es, S as int),
                forall|x: State| (x as int) < S ==> exitpoints@.contains_key(x),
                forall|x: State| #[trigger] exitpoints@.contains_key(x) ==> exitpoints@[x]@ == exit_upto(es, x, 256),
                forall|j: int| 0 <= j < todo@.len() ==> (#[trigger] todo@[j] as int) < S,
                forall|set: spec_fn(State) -> bool| set(last) && #[trigger] exit_closed(es, set) ==>
                    (forall|x: State| reached@.contains(x) ==> set(x)) && (forall|j: int| 0 <= j < todo@.len() ==> set(#[trigger] todo@[j])),
                entered(self.instr_list(), 0),
                forall|x: State| (x as int) < S ==> exit_upto(es, x, 256).len() > 0,
                last == (S - 1) as u8,
                S >= 1,
                target == conn_search(es, exit_upto(es, last, 256), Set::empty().insert(last), S as nat),
                !exit_upto(es, last, 256).contains(0),
                conn_search(es, todo@, reached@, (S - n) as nat) == target,
            decreases S - n,
        {
            let ghost todo0 = todo@;
            let state = match todo.pop() {
                None => {
                    assert(conn_search(es, todo@, reached@, (S - n) as nat) == false);
                    return false;
                },
                Some(x) => x,
            };
            if state == 0 {
                proof {
                    assert(todo0[todo0.len() - 1] == 0);
                    assert forall|set: spec_fn(State) -> bool| set(last) && #[trigger] exit_closed(es, set) implies set(0) by {
                        assert(set(todo0[todo0.len() - 1]));
                    }
                }
                return true;
            }
            proof {
                assert(todo0[todo0.len() - 1] == state);
                assert forall|set: spec_fn(State) -> bool| set(last) && #[trigger] exit_closed(es, set) implies
                    set(state) && (forall|j: int| 0 <= j < todo@.len() ==> set(#[trigger] todo@[j])) by {
                    assert(set(todo0[todo0.len() - 1]));
                    assert forall|j: int| 0 <= j < todo@.len() implies set(#[trigger] todo@[j]) by {
                        assert(todo@[j] == todo0[j]);
                    }
                }
                assert forall|j: int| 0 <= j < todo@.len() implies (#[trigger] todo@[j] as int) < S by {
                    assert(todo@[j] == todo0[j]);
                }
                assert((todo0[todo0.len() - 1] as int) < S);
            }
            let ghost reached0 = reached@;
            proof {
                assert(todo@ == todo0.drop_last());
                assert(conn_search(es, todo0, reached0, (S - n) as nat) == if state == 0 { true } else if reached0.contains(state) {
                    conn_search(es, todo@, reached0, (S - n - 1) as nat)
                } else {
                    conn_search(es, push_new(todo@, reached0.insert(state), exit_upto(es, state, 256)), reached0.insert(state), (S - n - 1) as nat)
                });
            }
            if reached.contains(&state) {
                n += 1;
                continue;
            }
            let ghost rest = todo@;
            reached.insert(state);
            let exits_of = exitpoints.get(&state).unwrap();
            proof {
                lemma_exit_upto(es, state, 256);
            }
            let mut i: usize = 0;
            while i < exits_of.len()
                invariant
                    i <= exits_of@.len(),
                    exits_of@ == exit_upto(es, state, 256),
                    S <= 256,
                    es == self.entries(),
                    targets_below(self.instr_list(), S as int),
                    forall|j: int| 0 <= j < es.len() ==> (#[trigger] es[j]).1 == self.instr_list()[j],
                    es.len() == self.instr_list().len(),
                    forall|j: int| 0 <= j < exits_of@.len() ==> exits(es, state, #[trigger] exits_of@[j]),
                    forall|j: int| 0 <= j < todo@.len() ==> (#[trigger] todo@[j] as int) < S,
                    forall|set: spec_fn(State) -> bool| set(last) && #[trigger] exit_closed(es, set) ==>
                        set(state) && (forall|x: State| reached@.contains(x) ==> set(x))
                        && (forall|j: int| 0 <= j < todo@.len() ==> set(#[trigger] todo@[j])),
                    entered(self.instr_list(), 0),
                    forall|x: State| (x as int) < S ==> exit_upto(es, x, 256).len() > 0,
                    last == (S - 1) as u8,
                    S >= 1,
                    todo@ == push_new(rest, reached@, exits_of@.subrange(0, i as int)),
                decreases exits_of@.len() - i,
            {
                let exit = exits_of[i];
                assert(exits(es, state, exits_of@[i as int]));
                assert(exits_of@.subrange(0, i + 1).drop_last() =~= exits_of@.subrange(0, i as int));
                if !reached.contains(&exit) && !holds(&todo, exit) {
                    proof {
                        let q = choose|q: int| 0 <= q < es.len() && (#[trigger] es[q]).0.0 == state && es[q].1.2 == exit;
                        assert(es[q].1 == self.instr_list()[q]);
                    }
                    let ghost before = todo@;
                    todo.push(exit);
                    proof {
                        assert forall|set: spec_fn(State) -> bool| set(last) && #[trigger] exit_closed(es, set) implies
                            set(state) && (forall|x: State| reached@.contains(x) ==> set(x))
                            && (forall|j: int| 0 <= j < todo@.len() ==> set(#[trigger] todo@[j])) by {
                            assert(set(state));
                            assert(exits(es, state, exit));
                            assert forall|j: int| 0 <= j < todo@.len() implies set(#[trigger] todo@[j]) by {
                                if j < before.len() {
                                    assert(todo@[j] == before[j]);
                                }
                            }
                        }
                    }
                }
                i += 1;
            }
            assert(exits_of@.subrange(0, exits_of@.len() as int) =~= exits_of@);
            assert(reached@ == reached0.insert(state));
            n += 1;
        }
        assert(conn_search(es, todo@, reached@, 0) == false);
        false
    }

    /// The state that a strict cycle moves state `st` to: that of its
    /// first instruction.
    pub open spec fn strict_next(&self, st: int) -> State {
        (self.instr_at(st, 0)->0).2
    }

    /// Every state's instructions are all defined and all lead to one
    /// other state.
    pub open spec fn strict_row(&self, st: int) -> bool {
        &&& C > 0
        &&& self.strict_next(st) != st
        &&& forall|co: int| 0 <= co < C ==> #[trigger] self.instr_at(st, co) is Some
            && (self.instr_at(st, co)->0).2 == self.strict_next(st)
    }

    /// Every state moves to the next one, or every state to the previous
    /// one, round the states.
    pub open spec fn strict_order(&self) -> bool {
        (forall|i: int| 0 <= i < S ==> #[trigger] self.strict_next(i) == (if i + 1 == S { 0 } else { i + 1 }))
        || (forall|i: int| 0 <= i < S ==> #[trigger] self.strict_next(i) == (if i == 0 { S - 1 } else { i - 1 }))
    }

    /// Whether every instruction of every state leads to one other state,
    /// the same for the whole row, and these states go round all states in
    /// increasing order, or all in decreasing order.
    pub fn is_strict_cycle(&self) -> (r: bool)
        ensures
            r == ((forall|st: int| 0 <= st < S ==> #[trigger] self.strict_row(st)) && self.strict_order()),
    {
        proof {
            use_type_invariant(self);
        }
        let mut next: Vec<State> = Vec::new();
        let mut st: usize = 0;
        while st < S
            invariant
                S <= 256,
                C <= 256,
                st <= S,
                next@.len() == st,
                forall|x: int| 0 <= x < st ==> #[trigger] self.strict_row(x) && next@[x] == self.strict_next(x),
            decreases S - st,
        {
            if C == 0 {
                assert(!self.strict_row(st as int));
                return false;
            }
            let first = match self.get(&(st as u8, 0)) {
                None => {
                    assert(!self.strict_row(st as int));
                    assert(!(self.instr_at(st as int, 0) is Some));
                    return false;
                },
                Some(i) => i.2,
            };
            let mut co: usize = 1;
            while co < C
                invariant
                    S <= 256,
                    C <= 256,
                    st < S,
                    1 <= co <= C,
                    first == self.strict_next(st as int),
                    forall|c: int| 0 <= c < co ==> #[trigger] self.instr_at(st as int, c) is Some
                        && (self.instr_at(st as int, c)->0).2 == first,
                decreases C - co,
            {
                match self.get(&(st as u8, co as u8)) {
                    None => {
                        assert(!self.strict_row(st as int));
                        assert(!(self.instr_at(st as int, co as int) is Some));
                        return false;
                    },
                    Some(i) => {
                        if i.2 != first {
                            assert(!self.strict_row(st as int));
                            assert((self.instr_at(st as int, co as int)->0).2 != self.strict_next(st as int));
                            return false;
                        }
                    },
                }
                co += 1;
            }
            if first as usize == st {
                assert(self.strict_next(st as int) == st as int);
                assert(!self.strict_row(st as int));
                return false;
            }
            next.push(first);
            st += 1;
        }
        assert forall|x: int| 0 <= x < S implies next@[x] == #[trigger] self.strict_next(x) by {
            assert(self.strict_row(x));
        }
        let mut forward = true;
        let mut backward = true;
        let mut i: usize = 0;
        while i < S
            invariant
                S <= 256,
                i <= S,
                next@.len() == S,
                forall|x: int| 0 <= x < S ==> next@[x] == #[trigger] self.strict_next(x),
                forall|x: int| 0 <= x < S ==> #[trigger] self.strict_row(x),
                forward == forall|x: int| 0 <= x < i ==> #[trigger] self.strict_next(x) == (if x + 1 == S { 0 } else { x + 1 }),
                backward == forall|x: int| 0 <= x < i ==> #[trigger] self.strict_next(x) == (if x == 0 { S - 1 } else { x - 1 }),
            decreases S - i,
        {
            let fwd: usize = if i + 1 == S { 0 } else { i + 1 };
            let bwd: usize = if i == 0 { S - 1 } else { i - 1 };
            let ghost f0 = forward;
            let ghost b0 = backward;
            forward = forward && next[i] as usize == fwd;
            backward = backward && next[i] as usize == bwd;
            proof {
                assert(next@[i as int] == self.strict_next(i as int));
                if f0 && !forward {
                    assert(self.strict_next(i as int) != (if i + 1 == S { 0 } else { i + 1 }));
                }
                if !f0 {
                    let x = choose|x: int| 0 <= x < i && #[trigger] self.strict_next(x) != (if x + 1 == S { 0 } else { x + 1 });
                    assert(self.strict_next(x) != (if x + 1 == S { 0 } else { x + 1 }));
                }
                if b0 && !backward {
                    assert(self.strict_next(i as int) != (if i == 0 { S - 1 } else { i - 1 }));
                }
                if !b0 {
                    let x = choose|x: int| 0 <= x < i && #[trigger] self.strict_next(x) != (if x == 0 { S - 1 } else { x - 1 });
                    assert(self.strict_next(x) != (if x == 0 { S - 1 } else { x - 1 }));
                }
            }
            i += 1;
        }
        forward || backward
    }
}

} // verus!
