//! Automaton compiler and matching engine.
//!
//! The compiler turns an abstract syntax tree into a flat sequence of
//! instructions, first with jump targets relative to each instruction's own
//! position ([`StateOffset`]), then with absolute indices ([`State`]).  An
//! automaton of length `n` matches when a thread of execution reaches the
//! distinguished match index `n`, one past the last instruction.
//!
//! The engine advances a set of automaton threads one input character at a
//! time (a breadth-first simulation over epsilon-closures), so the running
//! time is bounded by pattern size times input length, with no backtracking.

use vstd::prelude::*;
use crate::regex::{AST, ParseError, Pass, count_nodes, lemma_regex_props, spec_parse};

verus! {

/// One instruction of the compiled automaton, with jump targets stored as
/// signed offsets relative to the instruction's own position.
///
/// `Consume(c, o)` moves the thread forward by `o` when it encounters `c`;
/// on any other character the thread dies.  `Branch(a, b)` spawns two
/// threads, offset by `a` and by `b`, consuming no input.
#[derive(Debug, Clone, Copy, PartialEq, Eq, Structural)]
pub enum StateOffset {
    Consume(char, isize),
    Branch(isize, isize),
}

/// One instruction of the compiled automaton, with absolute jump targets.
///
/// `Consume(c, t)` switches the thread to instruction `t` when it encounters
/// `c`; on any other character the thread dies.  `Branch(a, b)` spawns two
/// threads at instructions `a` and `b`, consuming no input.
#[derive(Debug, Clone, Copy, PartialEq, Eq, Structural)]
pub enum State {
    Consume(char, usize),
    Branch(usize, usize),
}

impl State {
    /// Reports whether this instruction consumes an input character.
    pub fn is_seq(&self) -> (r: bool)
        ensures
            r == (self is Consume),
    {
        match self {
            State::Consume(_, _) => true,
            _ => false,
        }
    }
}

/// The mathematical model of a relative-offset instruction: the same shape
/// as [`StateOffset`], over unbounded integers.
pub enum RelInstr {
    Consume(char, int),
    Branch(int, int),
}

impl View for StateOffset {
    type V = RelInstr;

    open spec fn view(&self) -> RelInstr {
        match *self {
            StateOffset::Consume(c, o) => RelInstr::Consume(c, o as int),
            StateOffset::Branch(a, b) => RelInstr::Branch(a as int, b as int),
        }
    }
}

/// The model of a whole relative-offset sequence.
pub open spec fn rel_view(v: Seq<StateOffset>) -> Seq<RelInstr> {
    v.map_values(|x: StateOffset| x@)
}

/// The largest abstract syntax tree the compiler accepts.  An automaton
/// never has more instructions than its tree has nodes, so this keeps every
/// intermediate offset computation inside the signed machine-word range.
pub const MAX_NODES: usize = 0x3fff_ffff;

/// Rewriting of one instruction when the exit point of a sub-sequence moves:
/// every offset that lands exactly on the sub-sequence's own length (`m`,
/// its internal match position) is redirected to land on `to`; the two arms
/// of a branch are tested each on its own.
pub open spec fn spec_patch_instr(ins: RelInstr, i: int, m: int, to: int) -> RelInstr {
    match ins {
        RelInstr::Consume(c, o) => if i + o == m {
            RelInstr::Consume(c, to - i)
        } else {
            ins
        },
        RelInstr::Branch(x, y) => RelInstr::Branch(
            if i + x == m {
                to - i
            } else {
                x
            },
            if i + y == m {
                to - i
            } else {
                y
            },
        ),
    }
}

/// Rewriting of every exit-marked offset of a sub-sequence to land on `to`.
pub open spec fn spec_patch(s: Seq<RelInstr>, to: int) -> Seq<RelInstr> {
    s.map(|i: int, ins: RelInstr| spec_patch_instr(ins, i, s.len() as int, to))
}

/// Every jump target of `ins`, placed at position `i` of a sequence of
/// length `n`, lands inside the sequence or exactly on its match position.
pub open spec fn rel_targets_ok(ins: RelInstr, i: int, n: int) -> bool {
    match ins {
        RelInstr::Consume(_, o) => 0 <= i + o <= n,
        RelInstr::Branch(x, y) => 0 <= i + x <= n && 0 <= i + y <= n,
    }
}

/// Every jump target of every instruction of the sequence lands inside it
/// or exactly on its match position.
pub open spec fn rel_wf(s: Seq<RelInstr>) -> bool {
    forall|i: int| 0 <= i < s.len() ==> rel_targets_ok(#[trigger] s[i], i, s.len() as int)
}

/// The instruction sequence compiled from an abstract syntax tree, with
/// jump targets relative to each instruction's own position:
/// - a letter consumes its character and exits;
/// - `Optional(e)` branches into `e` or past it;
/// - `ZeroOrMore(e)` redirects the exits of `e` back to the leading branch,
///   which enters the loop or skips it entirely;
/// - `OneOrMore(e)` runs `e` once, then branches to exit or back to its start;
/// - `Alternate(a, b)` branches into either arm, the exits of `a` jumping
///   over all of `b`;
/// - `Concat(a, b)` is `a` immediately followed by `b`.
pub open spec fn spec_compile(ast: AST) -> Seq<RelInstr>
    decreases ast,
{
    match ast {
        AST::Letter(c) => seq![RelInstr::Consume(c, 1)],
        AST::Optional(e) => seq![
            RelInstr::Branch(1, spec_compile(*e).len() as int + 1),
        ] + spec_compile(*e),
        AST::ZeroOrMore(e) => seq![
            RelInstr::Branch(1, spec_compile(*e).len() as int + 1),
        ] + spec_patch(spec_compile(*e), -1),
        AST::OneOrMore(e) => spec_compile(*e) + seq![
            RelInstr::Branch(1, -(spec_compile(*e).len() as int)),
        ],
        AST::Alternate(a, b) => seq![
            RelInstr::Branch(1, spec_compile(*a).len() as int + 1),
        ] + spec_patch(
            spec_compile(*a),
            spec_compile(*a).len() as int + spec_compile(*b).len() as int,
        ) + spec_compile(*b),
        AST::Concat(a, b) => spec_compile(*a) + spec_compile(*b),
    }
}

/// The compiled sequence of any tree is non-empty, no longer than the tree's
/// node count, and all its jump targets land inside it or on its match
/// position.
pub proof fn lemma_compile_wf(ast: AST)
    ensures
        1 <= spec_compile(ast).len() <= count_nodes(ast),
        rel_wf(spec_compile(ast)),
    decreases ast,
{
    let r = spec_compile(ast);
    let n = r.len() as int;
    match ast {
        AST::Letter(c) => {
            assert(rel_wf(r));
        }
        AST::Optional(e) => {
            lemma_compile_wf(*e);
            let ce = spec_compile(*e);
            assert forall|i: int| 0 <= i < n implies rel_targets_ok(#[trigger] r[i], i, n) by {
                if i > 0 {
                    assert(r[i] == ce[i - 1]);
                    assert(rel_targets_ok(ce[i - 1], i - 1, ce.len() as int));
                }
            }
        }
        AST::ZeroOrMore(e) => {
            lemma_compile_wf(*e);
            let ce = spec_compile(*e);
            let pe = spec_patch(ce, -1);
            assert forall|i: int| 0 <= i < n implies rel_targets_ok(#[trigger] r[i], i, n) by {
                if i > 0 {
                    assert(r[i] == pe[i - 1]);
                    assert(pe[i - 1] == spec_patch_instr(ce[i - 1], i - 1, ce.len() as int, -1));
                    assert(rel_targets_ok(ce[i - 1], i - 1, ce.len() as int));
                }
            }
        }
        AST::OneOrMore(e) => {
            lemma_compile_wf(*e);
            let ce = spec_compile(*e);
            assert forall|i: int| 0 <= i < n implies rel_targets_ok(#[trigger] r[i], i, n) by {
                if i < ce.len() {
                    assert(r[i] == ce[i]);
                    assert(rel_targets_ok(ce[i], i, ce.len() as int));
                }
            }
        }
        AST::Alternate(a, b) => {
            lemma_compile_wf(*a);
            lemma_compile_wf(*b);
            let ca = spec_compile(*a);
            let cb = spec_compile(*b);
            let pa = spec_patch(ca, ca.len() as int + cb.len() as int);
            assert forall|i: int| 0 <= i < n implies rel_targets_ok(#[trigger] r[i], i, n) by {
                if 1 <= i <= ca.len() {
                    assert(r[i] == pa[i - 1]);
                    assert(pa[i - 1] == spec_patch_instr(
                        ca[i - 1],
                        i - 1,
                        ca.len() as int,
                        ca.len() as int + cb.len() as int,
                    ));
                    assert(rel_targets_ok(ca[i - 1], i - 1, ca.len() as int));
                } else if i > ca.len() {
                    let j = i - 1 - ca.len();
                    assert(r[i] == cb[j]);
                    assert(rel_targets_ok(cb[j], j, cb.len() as int));
                }
            }
        }
        AST::Concat(a, b) => {
            lemma_compile_wf(*a);
            lemma_compile_wf(*b);
            let ca = spec_compile(*a);
            let cb = spec_compile(*b);
            assert forall|i: int| 0 <= i < n implies rel_targets_ok(#[trigger] r[i], i, n) by {
                if i < ca.len() {
                    assert(r[i] == ca[i]);
                    assert(rel_targets_ok(ca[i], i, ca.len() as int));
                } else {
                    assert(r[i] == cb[i - ca.len()]);
                    assert(rel_targets_ok(cb[i - ca.len()], i - ca.len(), cb.len() as int));
                }
            }
        }
    }
}

/// Compiling a concatenation yields the instruction sequence of the left
/// part immediately followed by that of the right part, with nothing
/// inserted between them.
pub proof fn lemma_compile_concat(a: AST, b: AST)
    ensures
        spec_compile(AST::Concat(Box::new(a), Box::new(b))) == spec_compile(a) + spec_compile(b),
{
}

/// Redirects every exit-marked offset of the sequence to land on `to`: an
/// instruction at `index` whose target `index + offset` equals the
/// sequence's length is given the offset `to - index`.
pub fn replace_match_with(states: &mut Vec<StateOffset>, to: isize)
    requires
        old(states)@.len() <= MAX_NODES,
        -(MAX_NODES as int) <= to as int <= MAX_NODES as int,
    ensures
        final(states)@.len() == old(states)@.len(),
        rel_view(final(states)@) == spec_patch(rel_view(old(states)@), to as int),
{
    let match_pos = states.len();
    let ghost n = old(states)@.len() as int;
    let mut index: usize = 0;
    while index < states.len()
        invariant
            states@.len() == n,
            n <= MAX_NODES,
            -(MAX_NODES as int) <= to as int <= MAX_NODES as int,
            match_pos == n,
            index <= n,
            forall|j: int| index <= j < n ==> states@[j] == old(states)@[j],
            forall|j: int|
                0 <= j < index ==> states@[j]@ == spec_patch_instr(old(states)@[j]@, j, n, to as int),
        decreases n - index,
    {
        let st = states[index];
        match st {
            StateOffset::Consume(c, o) => {
                if index as i128 + o as i128 == match_pos as i128 {
                    states[index] = StateOffset::Consume(c, to - index as isize);
                }
            }
            StateOffset::Branch(a, b) => {
                let na = if index as i128 + a as i128 == match_pos as i128 {
                    to - index as isize
                } else {
                    a
                };
                let nb = if index as i128 + b as i128 == match_pos as i128 {
                    to - index as isize
                } else {
                    b
                };
                states[index] = StateOffset::Branch(na, nb);
            }
        }
        index = index + 1;
    }
    proof {
        assert(rel_view(states@) =~= spec_patch(rel_view(old(states)@), to as int));
    }
}

/// Compiles an abstract syntax tree into a relative-offset instruction
/// sequence, exactly as [`spec_compile`] lays it out.
#[allow(non_snake_case)]
pub fn regex_ast_to_rNFA(ast: AST) -> (r: Vec<StateOffset>)
    requires
        count_nodes(ast) <= MAX_NODES,
    ensures
        rel_view(r@) == spec_compile(ast),
    decreases ast,
{
    let ghost g = ast;
    match ast {
        AST::Letter(c) => {
            let mut v: Vec<StateOffset> = Vec::new();
            v.push(StateOffset::Consume(c, 1));
            proof {
                assert(rel_view(v@) =~= spec_compile(g));
            }
            v
        }
        AST::Optional(e) => {
            proof {
                lemma_compile_wf(*e);
            }
            let mut m = regex_ast_to_rNFA(*e);
            let n = m.len();
            m.insert(0, StateOffset::Branch(1, n as isize + 1));
            proof {
                assert(rel_view(m@) =~= spec_compile(g));
            }
            m
        }
        AST::ZeroOrMore(e) => {
            proof {
                lemma_compile_wf(*e);
            }
            let mut m = regex_ast_to_rNFA(*e);
            replace_match_with(&mut m, -1);
            let n = m.len();
            m.insert(0, StateOffset::Branch(1, n as isize + 1));
            proof {
                assert(rel_view(m@) =~= spec_compile(g));
            }
            m
        }
        AST::OneOrMore(e) => {
            proof {
                lemma_compile_wf(*e);
            }
            let mut m = regex_ast_to_rNFA(*e);
            let n = m.len();
            m.push(StateOffset::Branch(1, -(n as isize)));
            proof {
                assert(rel_view(m@) =~= spec_compile(g));
            }
            m
        }
        AST::Alternate(a, b) => {
            proof {
                lemma_compile_wf(*a);
                lemma_compile_wf(*b);
            }
            let mut va = regex_ast_to_rNFA(*a);
            let mut vb = regex_ast_to_rNFA(*b);
            let la = va.len();
            let lb = vb.len();
            replace_match_with(&mut va, (la + lb) as isize);
            va.insert(0, StateOffset::Branch(1, la as isize + 1));
            va.append(&mut vb);
            proof {
                assert(rel_view(va@) =~= spec_compile(g));
            }
            va
        }
        AST::Concat(a, b) => {
            proof {
                lemma_compile_wf(*a);
                lemma_compile_wf(*b);
            }
            let mut va = regex_ast_to_rNFA(*a);
            let mut vb = regex_ast_to_rNFA(*b);
            va.append(&mut vb);
            proof {
                assert(rel_view(va@) =~= spec_compile(g));
            }
            va
        }
    }
}

/// Every jump target of every instruction lands inside the automaton or
/// exactly on its match index.
pub open spec fn wf_nfa(a: Seq<State>) -> bool {
    forall|i: int|
        0 <= i < a.len() ==> match #[trigger] a[i] {
            State::Consume(_, t) => t <= a.len(),
            State::Branch(x, y) => x <= a.len() && y <= a.len(),
        }
}

/// One epsilon transition: instruction `i` is a branch and `j` is one of
/// its two targets.
pub open spec fn eps_step(a: Seq<State>, i: int, j: int) -> bool {
    &&& 0 <= i < a.len()
    &&& match a[i] {
        State::Branch(x, y) => j == x as int || j == y as int,
        _ => false,
    }
}

/// `p` is a chain of indices every consecutive pair of which is an epsilon
/// transition.
pub open spec fn eps_path_ok(a: Seq<State>, p: Seq<int>) -> bool
    decreases p.len(),
{
    p.len() >= 1 && (p.len() == 1 || (eps_step(a, p[0], p[1]) && eps_path_ok(a, p.drop_first())))
}

/// Index `j` is reachable from index `i` by zero or more epsilon
/// transitions (the epsilon-closure relation).
pub open spec fn eps_reach(a: Seq<State>, i: int, j: int) -> bool {
    exists|p: Seq<int>| eps_path_ok(a, p) && p.first() == i && p.last() == j
}

/// Instruction `i` consumes the character `c` and jumps to `t`.
pub open spec fn consume_step(a: Seq<State>, i: int, c: char, t: int) -> bool {
    &&& 0 <= i < a.len()
    &&& match a[i] {
        State::Consume(c2, t2) => c2 == c && t == t2 as int,
        _ => false,
    }
}

/// Index `j` is active after the automaton has consumed the whole of `s`:
/// some chain of consuming and epsilon transitions leads from index 0 to
/// `j` while consuming exactly the characters of `s` in order.
pub open spec fn active(a: Seq<State>, s: Seq<char>, j: int) -> bool
    decreases s.len(),
{
    if s.len() == 0 {
        eps_reach(a, 0, j)
    } else {
        exists|i: int, t: int|
            active(a, s.drop_last(), i) && #[trigger] consume_step(a, i, s.last(), t)
                && eps_reach(a, t, j)
    }
}

/// The automaton accepts `s`: its match index (its length, one past the
/// last instruction) is active exactly when the whole input is consumed.
pub open spec fn spec_matches(a: Seq<State>, s: Seq<char>) -> bool {
    active(a, s, a.len() as int)
}

/// Epsilon-reachability is reflexive.
pub proof fn lemma_eps_refl(a: Seq<State>, i: int)
    ensures
        eps_reach(a, i, i),
{
    let p = seq![i];
    assert(eps_path_ok(a, p) && p.first() == i && p.last() == i);
}

/// One epsilon transition gives epsilon-reachability.
pub proof fn lemma_eps_step_reach(a: Seq<State>, i: int, j: int)
    requires
        eps_step(a, i, j),
    ensures
        eps_reach(a, i, j),
{
    let p = seq![i, j];
    assert(p.drop_first() =~= seq![j]);
    assert(eps_path_ok(a, seq![j]));
    assert(eps_path_ok(a, p) && p.first() == i && p.last() == j);
}

/// Two epsilon paths that meet end to end glue into one.
proof fn lemma_eps_path_concat(a: Seq<State>, p1: Seq<int>, p2: Seq<int>)
    requires
        eps_path_ok(a, p1),
        eps_path_ok(a, p2),
        p1.last() == p2.first(),
    ensures
        eps_path_ok(a, p1 + p2.drop_first()),
        (p1 + p2.drop_first()).first() == p1.first(),
        (p1 + p2.drop_first()).last() == p2.last(),
    decreases p1.len(),
{
    let q = p1 + p2.drop_first();
    if p1.len() == 1 {
        assert(q =~= p2);
    } else {
        lemma_eps_path_concat(a, p1.drop_first(), p2);
        assert(q.drop_first() =~= p1.drop_first() + p2.drop_first());
        assert(eps_step(a, q[0], q[1]));
    }
}

/// Epsilon-reachability is transitive.
pub proof fn lemma_eps_trans(a: Seq<State>, i: int, j: int, k: int)
    requires
        eps_reach(a, i, j),
        eps_reach(a, j, k),
    ensures
        eps_reach(a, i, k),
{
    let p1 = choose|p: Seq<int>| eps_path_ok(a, p) && p.first() == i && p.last() == j;
    let p2 = choose|p: Seq<int>| eps_path_ok(a, p) && p.first() == j && p.last() == k;
    lemma_eps_path_concat(a, p1, p2);
    let q = p1 + p2.drop_first();
    assert(eps_path_ok(a, q) && q.first() == i && q.last() == k);
}

/// A marker vector is epsilon-closed: both targets of every marked branch
/// instruction are marked too.
pub open spec fn marks_closed(a: Seq<State>, v: Seq<bool>) -> bool {
    forall|i: int|
        0 <= i < a.len() && v[i] ==> match #[trigger] a[i] {
            State::Branch(x, y) => v[x as int] && v[y as int],
            _ => true,
        }
}

/// Walking an epsilon path out of a marked index of an epsilon-closed
/// marker vector stays inside the marked indices.
proof fn lemma_closed_path(a: Seq<State>, v: Seq<bool>, p: Seq<int>)
    requires
        wf_nfa(a),
        v.len() == a.len() + 1,
        marks_closed(a, v),
        eps_path_ok(a, p),
        0 <= p.first() <= a.len(),
        v[p.first()],
    ensures
        0 <= p.last() <= a.len(),
        v[p.last()],
    decreases p.len(),
{
    if p.len() > 1 {
        assert(eps_step(a, p[0], p[1]));
        lemma_closed_path(a, v, p.drop_first());
    }
}

/// Everything epsilon-reachable from a marked index of an epsilon-closed
/// marker vector is marked.
proof fn lemma_closed_reach(a: Seq<State>, v: Seq<bool>, i: int, j: int)
    requires
        wf_nfa(a),
        v.len() == a.len() + 1,
        marks_closed(a, v),
        0 <= i <= a.len(),
        v[i],
        eps_reach(a, i, j),
    ensures
        0 <= j <= a.len(),
        v[j],
{
    let p = choose|p: Seq<int>| eps_path_ok(a, p) && p.first() == i && p.last() == j;
    lemma_closed_path(a, v, p);
}

/// The number of unmarked slots of a marker vector.
pub open spec fn count_false(v: Seq<bool>) -> nat
    decreases v.len(),
{
    if v.len() == 0 {
        0
    } else {
        (if v[0] {
            0nat
        } else {
            1nat
        }) + count_false(v.drop_first())
    }
}

/// Marking one slot lowers the number of unmarked slots by one, or keeps
/// it when the slot was already marked.
proof fn lemma_count_false_update(v: Seq<bool>, i: int)
    requires
        0 <= i < v.len(),
    ensures
        v[i] ==> count_false(v.update(i, true)) == count_false(v),
        !v[i] ==> count_false(v.update(i, true)) + 1 == count_false(v),
    decreases v.len(),
{
    if v[i] {
        assert(v.update(i, true) =~= v);
    } else if i == 0 {
        assert(v.update(0, true).drop_first() =~= v.drop_first());
    } else {
        assert(v.update(i, true).drop_first() =~= v.drop_first().update(i - 1, true));
        lemma_count_false_update(v.drop_first(), i - 1);
    }
}

/// Marks `from` and every index epsilon-reachable from it in the marker
/// vector `to`, using the markings themselves to cut off revisits, so the
/// recursion terminates even on the cyclic branch chains that `*` and `+`
/// compile to.
fn addstate(base: &Vec<State>, from: usize, to: &mut Vec<bool>)
    requires
        wf_nfa(base@),
        old(to)@.len() == base@.len() + 1,
        from <= base@.len(),
    ensures
        final(to)@.len() == old(to)@.len(),
        forall|j: int| 0 <= j < old(to)@.len() && old(to)@[j] ==> final(to)@[j],
        final(to)@[from as int],
        forall|j: int|
            0 <= j < old(to)@.len() && final(to)@[j] && !old(to)@[j] ==> eps_reach(
                base@,
                from as int,
                j,
            ),
        forall|i: int|
            0 <= i < base@.len() && final(to)@[i] && !old(to)@[i]
                ==> match base@[i] {
                State::Branch(x, y) => final(to)@[x as int] && final(to)@[y as int],
                _ => true,
            },
        count_false(final(to)@) <= count_false(old(to)@),
        !old(to)@[from as int] ==> count_false(final(to)@) < count_false(old(to)@),
    decreases count_false(old(to)@), (if old(to)@[from as int] {
        1int
    } else {
        0int
    }),
{
    let ghost pre = to@;
    let n = base.len();
    to[from] = true;
    proof {
        lemma_count_false_update(pre, from as int);
        lemma_eps_refl(base@, from as int);
    }
    if from == n {
        return ;
    }
    match base[from] {
        State::Consume(_, _) => {},
        State::Branch(x, y) => {
            let ghost t1 = to@;
            if !to[x] {
                addstate(base, x, to);
            }
            let ghost t2 = to@;
            if !to[y] {
                addstate(base, y, to);
            }
            proof {
                assert(eps_step(base@, from as int, x as int));
                assert(eps_step(base@, from as int, y as int));
                lemma_eps_step_reach(base@, from as int, x as int);
                lemma_eps_step_reach(base@, from as int, y as int);
                assert forall|j: int|
                    0 <= j < pre.len() && to@[j] && !pre[j] implies eps_reach(
                    base@,
                    from as int,
                    j,
                ) by {
                    if j == from as int {
                    } else if t2[j] && !t1[j] {
                        lemma_eps_trans(base@, from as int, x as int, j);
                    } else if !t2[j] {
                        lemma_eps_trans(base@, from as int, y as int, j);
                    }
                }
            }
        },
    }
}

/// Resets every slot of a marker vector to false.
fn set_false(c: &mut Vec<bool>)
    ensures
        final(c)@.len() == old(c)@.len(),
        forall|j: int| 0 <= j < final(c)@.len() ==> !final(c)@[j],
{
    let mut i: usize = 0;
    while i < c.len()
        invariant
            c@.len() == old(c)@.len(),
            i <= c@.len(),
            forall|j: int| 0 <= j < i ==> !c@[j],
        decreases c@.len() - i,
    {
        c[i] = false;
        i = i + 1;
    }
}

/// A marker vector of `n` slots, all unmarked.
fn blank_marks(n: usize) -> (r: Vec<bool>)
    ensures
        r@.len() == n,
        forall|j: int| 0 <= j < n ==> !r@[j],
{
    let mut r: Vec<bool> = Vec::new();
    let mut i: usize = 0;
    while i < n
        invariant
            i <= n,
            r@.len() == i,
            forall|j: int| 0 <= j < i ==> !r@[j],
        decreases n - i,
    {
        r.push(false);
        i = i + 1;
    }
    r
}

/// Gathers from a marker vector the consuming instructions as the new
/// thread set, and reports whether the match index is marked.
fn collect_threads(base: &Vec<State>, marks: &Vec<bool>, threads: &mut Vec<usize>) -> (matched:
    bool)
    requires
        marks@.len() == base@.len() + 1,
        old(threads)@.len() == 0,
    ensures
        forall|i: usize|
            i < base@.len() ==> (final(threads)@.contains(i) <==> (marks@[i as int] && base@[
                i as int
            ] is Consume)),
        forall|i: usize| i >= base@.len() ==> !final(threads)@.contains(i),
        matched == marks@[base@.len() as int],
{
    let n = base.len();
    let mut matched = false;
    let mut index: usize = 0;
    while index < marks.len()
        invariant
            marks@.len() == n + 1,
            n == base@.len(),
            index <= n + 1,
            forall|i: usize|
                (i as int) < index && i < n ==> (threads@.contains(i) <==> (marks@[i as int]
                    && base@[i as int] is Consume)),
            forall|i: usize| (i as int) >= index || i >= n ==> !threads@.contains(i),
            matched == ((index as int) > n && marks@[n as int]),
        decreases marks@.len() - index,
    {
        if marks[index] {
            if index == n {
                matched = true;
            } else if base[index].is_seq() {
                let ghost t0 = threads@;
                threads.push(index);
                proof {
                    assert forall|i: usize| #[trigger] threads@.contains(i) implies t0.contains(i)
                        || i == index by {
                        let k = choose|k: int| 0 <= k < threads@.len() && threads@[k] == i;
                        if k < t0.len() {
                            assert(t0[k] == i);
                        }
                    }
                    assert forall|i: usize| t0.contains(i) implies threads@.contains(i) by {
                        let k = choose|k: int| 0 <= k < t0.len() && t0[k] == i;
                        assert(threads@[k] == i);
                    }
                    assert(threads@[threads@.len() - 1] == index);
                    assert(threads@.contains(index));
                }
            }
        }
        index = index + 1;
    }
    matched
}

/// The absolute instruction `a` at position `i` addresses the same
/// transitions as the relative instruction `r` there: each target is the
/// position plus the stored offset.
pub open spec fn abs_instr_of(a: State, r: RelInstr, i: int) -> bool {
    match (a, r) {
        (State::Consume(c1, t), RelInstr::Consume(c2, o)) => c1 == c2 && t as int == i + o,
        (State::Branch(x, y), RelInstr::Branch(ox, oy)) => x as int == i + ox && y as int == i
            + oy,
        _ => false,
    }
}

/// The absolute-addressed sequence `aseq` is the relative sequence `rel`
/// converted position by position.
pub open spec fn abs_of(aseq: Seq<State>, rel: Seq<RelInstr>) -> bool {
    &&& aseq.len() == rel.len()
    &&& forall|i: int| 0 <= i < rel.len() ==> abs_instr_of(#[trigger] aseq[i], rel[i], i)
}

/// Compiles a pattern string into an absolute-addressed automaton, or
/// reports the parse anomaly unchanged.  Parsing is the only way this can
/// fail: every tree the parser yields compiles, and every automaton
/// compiled here is well-formed — each jump target lands inside it or
/// exactly on its match index.
#[allow(non_snake_case)]
pub fn regex_to_rNFA(s: &str) -> (r: Result<Vec<State>, ParseError>)
    requires
        2 * s@.len() <= MAX_NODES as int,
    ensures
        match spec_parse(s@) {
            Ok(astp) => r is Ok && abs_of(r->Ok_0@, spec_compile(astp.0)) && wf_nfa(r->Ok_0@),
            Err(ep) => r is Err && r->Err_0.0@ == ep.0 && r->Err_0.1 as int == ep.1,
        },
{
    let ast = match Pass::parse(s) {
        Ok(a) => a,
        Err(e) => {
            return Err(e);
        },
    };
    let ghost gast = ast;
    proof {
        lemma_regex_props(s@, 0);
        lemma_compile_wf(gast);
    }
    let rel = regex_ast_to_rNFA(ast);
    let n = rel.len();
    let mut out: Vec<State> = Vec::with_capacity(n);
    let mut i: usize = 0;
    while i < n
        invariant
            n == rel@.len(),
            rel_view(rel@) == spec_compile(gast),
            rel_wf(rel_view(rel@)),
            n <= MAX_NODES,
            i <= n,
            out@.len() == i,
            forall|j: int| 0 <= j < i ==> abs_instr_of(#[trigger] out@[j], rel_view(rel@)[j], j),
        decreases n - i,
    {
        proof {
            assert(rel_targets_ok(rel_view(rel@)[i as int], i as int, n as int));
            assert(rel_view(rel@)[i as int] == rel@[i as int]@);
        }
        let a = match rel[i] {
            StateOffset::Consume(c, o) => State::Consume(c, ((i as isize) + o) as usize),
            StateOffset::Branch(x, y) => State::Branch(
                ((i as isize) + x) as usize,
                ((i as isize) + y) as usize,
            ),
        };
        out.push(a);
        i = i + 1;
    }
    proof {
        assert forall|j: int| 0 <= j < out@.len() implies match #[trigger] out@[j] {
            State::Consume(_, t) => t <= out@.len(),
            State::Branch(x, y) => x <= out@.len() && y <= out@.len(),
        } by {
            assert(abs_instr_of(out@[j], rel_view(rel@)[j], j));
            assert(rel_targets_ok(rel_view(rel@)[j], j, n as int));
        }
    }
    Ok(out)
}

/// Matching is a pure function of the automaton and the input: two runs
/// over the same automaton and the same input yield the same verdict, as
/// both equal [`spec_matches`] and no state leaks between calls.
pub proof fn lemma_matches_idempotent(a: Seq<State>, s: Seq<char>, r1: bool, r2: bool)
    requires
        r1 == spec_matches(a, s),
        r2 == spec_matches(a, s),
    ensures
        r1 == r2,
{
}

/// Thread `i` of the current set, on seeing character `c`, marks index `j`:
/// it consumes `c` and `j` is epsilon-reachable from its jump target.
pub open spec fn thread_marks(a: Seq<State>, i: int, c: char, j: int) -> bool {
    exists|t: int| #[trigger] consume_step(a, i, c, t) && eps_reach(a, t, j)
}

/// Runs the automaton over the whole input string and reports whether some
/// thread of execution reaches the match index exactly when the input is
/// exhausted: anchored whole-string matching, in time bounded by automaton
/// size times input length.
pub fn match_regex_vec(rvec: Vec<State>, s: &str) -> (r: bool)
    requires
        wf_nfa(rvec@),
        rvec@.len() < usize::MAX,
    ensures
        r == spec_matches(rvec@, s@),
{
    let cs = crate::chars::chars_of(s);
    let n = rvec.len();
    let mut vec1: Vec<usize> = Vec::with_capacity(n);
    let mut vec2: Vec<bool> = blank_marks(n + 1);
    let ghost m0 = vec2@;
    addstate(&rvec, 0, &mut vec2);
    proof {
        assert(marks_closed(rvec@, vec2@));
        assert forall|j: int| 0 <= j <= n implies (vec2@[j] <==> eps_reach(rvec@, 0, j)) by {
            if !vec2@[j] && eps_reach(rvec@, 0, j) {
                lemma_closed_reach(rvec@, vec2@, 0, j);
            }
        }
        assert(cs@.take(0) =~= Seq::<char>::empty());
    }
    let ghost m1 = vec2@;
    let matched0 = collect_threads(&rvec, &vec2, &mut vec1);
    let mut last_matched = matched0;
    set_false(&mut vec2);
    let mut k: usize = 0;
    proof {
        let p0 = cs@.take(0);
        assert forall|i: usize| i < n implies (vec1@.contains(i) <==> (active(
            rvec@,
            p0,
            i as int,
        ) && rvec@[i as int] is Consume)) by {
            assert(active(rvec@, p0, i as int) == eps_reach(rvec@, 0, i as int));
            assert(vec1@.contains(i) <==> (m1[i as int] && rvec@[i as int] is Consume));
            assert(m1[i as int] <==> eps_reach(rvec@, 0, i as int));
        }
        assert(active(rvec@, p0, n as int) == eps_reach(rvec@, 0, n as int));
        assert(last_matched == spec_matches(rvec@, p0));
    }
    while k < cs.len()
        invariant
            wf_nfa(rvec@),
            n == rvec@.len(),
            n < usize::MAX,
            cs@ == s@,
            k <= cs@.len(),
            vec2@.len() == n + 1,
            forall|j: int| 0 <= j < vec2@.len() ==> !vec2@[j],
            forall|i: usize|
                i < n ==> (vec1@.contains(i) <==> (active(rvec@, cs@.take(k as int), i as int)
                    && rvec@[i as int] is Consume)),
            forall|i: usize| i >= n ==> !vec1@.contains(i),
            last_matched == spec_matches(rvec@, cs@.take(k as int)),
        decreases cs@.len() - k,
    {
        let ch = cs[k];
        let ghost threads0 = vec1@;
        let ghost prefix = cs@.take(k as int);
        proof {
            assert forall|idx: int| 0 <= idx < threads0.len() implies (threads0[idx] as int)
                < n by {
                assert(threads0.contains(threads0[idx]));
            }
            assert(vec1@ =~= threads0.take(vec1@.len() as int));
        }
        while vec1.len() != 0
            invariant
                wf_nfa(rvec@),
                n == rvec@.len(),
                vec2@.len() == n + 1,
                vec1@.len() <= threads0.len(),
                vec1@ == threads0.take(vec1@.len() as int),
                forall|idx: int| 0 <= idx < threads0.len() ==> (threads0[idx] as int) < n,
                marks_closed(rvec@, vec2@),
                forall|j: int|
                    0 <= j <= n ==> (vec2@[j] <==> exists|idx: int|
                        vec1@.len() <= idx < threads0.len() && #[trigger] thread_marks(
                            rvec@,
                            threads0[idx] as int,
                            ch,
                            j,
                        )),
            decreases vec1@.len(),
        {
            let st = vec1.pop().unwrap();
            let ghost cur = vec1@.len() as int;
            proof {
                assert(vec1@ =~= threads0.take(cur));
                assert(st == threads0[cur]);
            }
            match rvec[st] {
                State::Consume(c, o) => {
                    if c == ch {
                        let ghost m_pre = vec2@;
                        addstate(&rvec, o, &mut vec2);
                        proof {
                            assert(consume_step(rvec@, st as int, ch, o as int));
                            assert(marks_closed(rvec@, vec2@));
                            assert forall|j: int| 0 <= j <= n implies (vec2@[j]
                                <==> exists|idx: int|
                                cur <= idx < threads0.len() && #[trigger] thread_marks(
                                    rvec@,
                                    threads0[idx] as int,
                                    ch,
                                    j,
                                )) by {
                                if vec2@[j] {
                                    if m_pre[j] {
                                        let idx = choose|idx: int|
                                            cur + 1 <= idx < threads0.len() && #[trigger] thread_marks(
                                                rvec@,
                                                threads0[idx] as int,
                                                ch,
                                                j,
                                            );
                                        assert(thread_marks(rvec@, threads0[idx] as int, ch, j));
                                    } else {
                                        assert(eps_reach(rvec@, o as int, j));
                                        assert(thread_marks(rvec@, threads0[cur] as int, ch, j));
                                    }
                                }
                                if exists|idx: int|
                                    cur <= idx < threads0.len() && #[trigger] thread_marks(
                                        rvec@,
                                        threads0[idx] as int,
                                        ch,
                                        j,
                                    ) {
                                    let idx = choose|idx: int|
                                        cur <= idx < threads0.len() && #[trigger] thread_marks(
                                            rvec@,
                                            threads0[idx] as int,
                                            ch,
                                            j,
                                        );
                                    if idx == cur {
                                        let t = choose|t: int|
                                            #[trigger] consume_step(rvec@, st as int, ch, t)
                                                && eps_reach(rvec@, t, j);
                                        assert(t == o as int);
                                        lemma_closed_reach(rvec@, vec2@, o as int, j);
                                    } else {
                                        assert(m_pre[j]);
                                    }
                                }
                            }
                        }
                    } else {
                        proof {
                            assert forall|j: int|
                                0 <= j <= n && !vec2@[j] implies !thread_marks(
                                rvec@,
                                threads0[cur] as int,
                                ch,
                                j,
                            ) by {
                                if thread_marks(rvec@, threads0[cur] as int, ch, j) {
                                    let t = choose|t: int|
                                        #[trigger] consume_step(rvec@, st as int, ch, t)
                                            && eps_reach(rvec@, t, j);
                                }
                            }
                        }
                    }
                },
                State::Branch(_, _) => {
                    proof {
                        assert forall|j: int| 0 <= j <= n && !vec2@[j] implies !thread_marks(
                            rvec@,
                            threads0[cur] as int,
                            ch,
                            j,
                        ) by {
                            if thread_marks(rvec@, threads0[cur] as int, ch, j) {
                                let t = choose|t: int|
                                    #[trigger] consume_step(rvec@, st as int, ch, t) && eps_reach(
                                        rvec@,
                                        t,
                                        j,
                                    );
                            }
                        }
                    }
                },
            }
        }
        vec1.clear();
        let ghost pk1 = cs@.take(k as int + 1);
        proof {
            assert(pk1.drop_last() =~= prefix);
            assert(pk1.last() == cs@[k as int]);
            assert forall|j: int| 0 <= j <= n implies (vec2@[j] <==> active(rvec@, pk1, j)) by {
                if vec2@[j] {
                    let idx = choose|idx: int|
                        0 <= idx < threads0.len() && #[trigger] thread_marks(
                            rvec@,
                            threads0[idx] as int,
                            ch,
                            j,
                        );
                    let i = threads0[idx] as int;
                    let t = choose|t: int|
                        #[trigger] consume_step(rvec@, i, ch, t) && eps_reach(rvec@, t, j);
                    assert(threads0.contains(threads0[idx]));
                    assert(active(rvec@, prefix, i));
                    assert(active(rvec@, pk1.drop_last(), i) && consume_step(
                        rvec@,
                        i,
                        pk1.last(),
                        t,
                    ) && eps_reach(rvec@, t, j));
                    assert(active(rvec@, pk1, j));
                }
                if active(rvec@, pk1, j) {
                    let (i, t) = choose|i: int, t: int|
                        active(rvec@, pk1.drop_last(), i) && #[trigger] consume_step(
                            rvec@,
                            i,
                            pk1.last(),
                            t,
                        ) && eps_reach(rvec@, t, j);
                    let iu = i as usize;
                    assert(active(rvec@, prefix, i));
                    assert(rvec@[i] is Consume);
                    assert(threads0.contains(iu));
                    let idx = choose|idx: int| 0 <= idx < threads0.len() && threads0[idx] == iu;
                    assert(consume_step(rvec@, threads0[idx] as int, ch, t));
                    assert(thread_marks(rvec@, threads0[idx] as int, ch, j));
                }
            }
        }
        let ghost mcur = vec2@;
        let m = collect_threads(&rvec, &vec2, &mut vec1);
        last_matched = m;
        set_false(&mut vec2);
        k = k + 1;
        proof {
            assert(cs@.take(k as int) == pk1);
            assert forall|i: usize| i < n implies (vec1@.contains(i) <==> (active(
                rvec@,
                cs@.take(k as int),
                i as int,
            ) && rvec@[i as int] is Consume)) by {
                assert(vec1@.contains(i) <==> (mcur[i as int] && rvec@[i as int] is Consume));
                assert(mcur[i as int] <==> active(rvec@, pk1, i as int));
            }
            assert(mcur[n as int] <==> active(rvec@, pk1, n as int));
            assert(last_matched == spec_matches(rvec@, cs@.take(k as int)));
        }
    }
    proof {
        assert(cs@.take(k as int) =~= s@);
    }
    last_matched
}

} // verus!
