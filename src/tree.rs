//! Structuring: a flat operation sequence to a tree of instructions.
use vstd::prelude::*;
use crate::token::{OpCode, text, tokens, lemma_tokens_of_text};

verus! {

/// A node of the instruction tree; a loop owns its body.
#[derive(Debug, PartialEq, Eq)]
pub enum Instruction {
    Forward,
    Backward,
    Increase,
    Decrease,
    Write,
    Read,
    Loop(Vec<Instruction>),
}

/// The operations a sequence of instructions is written with: each loop
/// stands as its body between a loop-begin and a loop-end.
pub open spec fn render(prog: Seq<Instruction>) -> Seq<OpCode>
    decreases prog,
{
    if prog.len() == 0 {
        seq![]
    } else {
        let rest = render(prog.drop_first());
        match prog[0] {
            Instruction::Forward => seq![OpCode::Forward] + rest,
            Instruction::Backward => seq![OpCode::Backward] + rest,
            Instruction::Increase => seq![OpCode::Increase] + rest,
            Instruction::Decrease => seq![OpCode::Decrease] + rest,
            Instruction::Write => seq![OpCode::Write] + rest,
            Instruction::Read => seq![OpCode::Read] + rest,
            Instruction::Loop(body) => seq![OpCode::BeginLoop] + render(body@) + seq![
                OpCode::EndLoop,
            ] + rest,
        }
    }
}

/// How an operation changes the loop nesting depth.
pub open spec fn depth_step(o: OpCode) -> int {
    match o {
        OpCode::BeginLoop => 1,
        OpCode::EndLoop => -1,
        _ => 0,
    }
}

/// Loop-begins minus loop-ends.
pub open spec fn depth(s: Seq<OpCode>) -> int
    decreases s.len(),
{
    if s.len() == 0 {
        0
    } else {
        depth(s.drop_last()) + depth_step(s.last())
    }
}

/// Loop markers match: no prefix closes more loops than it opened, and the
/// whole sequence closes every loop it opens.
pub open spec fn balanced(s: Seq<OpCode>) -> bool {
    &&& depth(s) == 0
    &&& forall|i: int| 0 <= i <= s.len() ==> depth(#[trigger] s.take(i)) >= 0
}

proof fn lemma_depth_take(s: Seq<OpCode>, i: int)
    requires
        0 <= i < s.len(),
    ensures
        depth(s.take(i + 1)) == depth(s.take(i)) + depth_step(s[i]),
{
    assert(s.take(i + 1).drop_last() =~= s.take(i));
}

proof fn lemma_depth_bound(s: Seq<OpCode>)
    ensures
        depth(s) <= s.len(),
    decreases s.len(),
{
    if s.len() > 0 {
        lemma_depth_bound(s.drop_last());
    }
}

/// Whether the loop markers of `ops` are balanced.
pub fn is_balanced(ops: &Vec<OpCode>) -> (r: bool)
    ensures
        r == balanced(ops@),
{
    let mut open: usize = 0;
    let mut i: usize = 0;
    proof {
        assert(ops@.take(0) =~= seq![]);
    }
    while i < ops.len()
        invariant
            i <= ops.len(),
            open == depth(ops@.take(i as int)),
            forall|j: int| 0 <= j <= i ==> depth(#[trigger] ops@.take(j)) >= 0,
        decreases ops.len() - i,
    {
        proof {
            lemma_depth_take(ops@, i as int);
            lemma_depth_bound(ops@.take(i as int));
        }
        match ops[i] {
            OpCode::BeginLoop => {
                open = open + 1;
            },
            OpCode::EndLoop => {
                if open == 0 {
                    assert(depth(ops@.take(i + 1)) < 0);
                    return false;
                }
                open = open - 1;
            },
            _ => {},
        }
        i = i + 1;
    }
    proof {
        assert(ops@.take(ops.len() as int) =~= ops@);
    }
    open == 0
}

proof fn lemma_render_append(a: Seq<Instruction>, b: Seq<Instruction>)
    ensures
        render(a + b) == render(a) + render(b),
    decreases a.len(),
{
    if a.len() == 0 {
        assert(a + b =~= b);
        assert(render(a) + render(b) =~= render(b));
    } else {
        assert((a + b).drop_first() =~= a.drop_first() + b);
        assert((a + b)[0] == a[0]);
        lemma_render_append(a.drop_first(), b);
        match a[0] {
            Instruction::Loop(body) => {
                assert(render(a + b) =~= render(a) + render(b));
            },
            _ => {
                assert(render(a + b) =~= render(a) + render(b));
            },
        }
    }
}

proof fn lemma_render_push(a: Seq<Instruction>, x: Instruction)
    ensures
        render(a.push(x)) == render(a) + render(seq![x]),
{
    assert(a.push(x) =~= a + seq![x]);
    lemma_render_append(a, seq![x]);
}

/// The operations of a stack of open loop bodies, the bottom one being
/// the top level: each open body follows a loop-begin not yet closed.
spec fn render_open(frames: Seq<Seq<Instruction>>) -> Seq<OpCode>
    decreases frames.len(),
{
    if frames.len() == 0 {
        seq![]
    } else if frames.len() == 1 {
        render(frames[0])
    } else {
        render_open(frames.drop_last()) + seq![OpCode::BeginLoop] + render(frames.last())
    }
}

spec fn frames_of(stack: Seq<Vec<Instruction>>) -> Seq<Seq<Instruction>> {
    stack.map_values(|v: Vec<Instruction>| v@)
}

/// Structures balanced operations into an instruction tree: the result
/// is the one tree whose operations are exactly `op_codes`.
pub fn parse_2(op_codes: Vec<OpCode>) -> (r: Vec<Instruction>)
    requires
        balanced(op_codes@),
    ensures
        render(r@) == op_codes@,
{
    let mut stack: Vec<Vec<Instruction>> = Vec::new();
    stack.push(Vec::new());
    let mut i: usize = 0;
    proof {
        assert(op_codes@.take(0) =~= seq![]);
        assert(frames_of(stack@) =~= seq![Seq::<Instruction>::empty()]);
    }
    while i < op_codes.len()
        invariant
            i <= op_codes.len(),
            balanced(op_codes@),
            stack.len() >= 1,
            stack.len() == depth(op_codes@.take(i as int)) + 1,
            render_open(frames_of(stack@)) == op_codes@.take(i as int),
        decreases op_codes.len() - i,
    {
        proof {
            lemma_depth_take(op_codes@, i as int);
            assert(op_codes@.take(i + 1) =~= op_codes@.take(i as int).push(op_codes@[i as int]));
        }
        let ghost before = frames_of(stack@);
        let simple = match op_codes[i] {
            OpCode::Forward => Some(Instruction::Forward),
            OpCode::Backward => Some(Instruction::Backward),
            OpCode::Increase => Some(Instruction::Increase),
            OpCode::Decrease => Some(Instruction::Decrease),
            OpCode::Write => Some(Instruction::Write),
            OpCode::Read => Some(Instruction::Read),
            _ => None,
        };
        match simple {
            Some(ins) => {
                let mut top = stack.pop().unwrap();
                proof {
                    lemma_render_push(top@, ins);
                    reveal_with_fuel(render, 2);
                }
                top.push(ins);
                stack.push(top);
                proof {
                    assert(frames_of(stack@).drop_last() =~= before.drop_last());
                    assert(frames_of(stack@).last() == before.last().push(ins));
                    assert(render_open(frames_of(stack@)) =~= op_codes@.take(i + 1));
                }
            },
            None => {
                if let OpCode::BeginLoop = op_codes[i] {
                    stack.push(Vec::new());
                    proof {
                        assert(frames_of(stack@).drop_last() =~= before);
                        assert(render(frames_of(stack@).last()) =~= seq![]);
                        assert(render_open(frames_of(stack@)) =~= op_codes@.take(i + 1));
                    }
                } else {
                    assert(depth(op_codes@.take(i + 1)) >= 0);
                    let body = stack.pop().unwrap();
                    let mut parent = stack.pop().unwrap();
                    let ghost pre = frames_of(stack@);
                    proof {
                        lemma_render_push(parent@, Instruction::Loop(body));
                        reveal_with_fuel(render, 2);
                        assert(render(seq![Instruction::Loop(body)]) =~= seq![OpCode::BeginLoop]
                            + render(body@) + seq![OpCode::EndLoop]);
                        assert(before.drop_last().drop_last() =~= pre);
                    }
                    let ghost old_parent = parent@;
                    let ghost body_ops = render(body@);
                    parent.push(Instruction::Loop(body));
                    stack.push(parent);
                    proof {
                        let after = frames_of(stack@);
                        assert(after.drop_last() =~= pre);
                        assert(before.last() == body@);
                        assert(before.drop_last().last() == old_parent);
                        assert(render(after.last()) == render(old_parent) + seq![
                            OpCode::BeginLoop,
                        ] + body_ops + seq![OpCode::EndLoop]);
                        if pre.len() == 0 {
                            assert(render_open(before.drop_last()) == render(old_parent));
                        } else {
                            assert(render_open(before.drop_last()) == render_open(pre) + seq![
                                OpCode::BeginLoop,
                            ] + render(old_parent));
                        }
                        assert(render_open(frames_of(stack@)) =~= op_codes@.take(i + 1));
                    }
                }
            },
        }
        i = i + 1;
    }
    proof {
        assert(op_codes@.take(op_codes.len() as int) =~= op_codes@);
    }
    stack.pop().unwrap()
}

/// The instruction an operation other than a loop marker stands for.
pub open spec fn plain_of(o: OpCode) -> Option<Instruction> {
    match o {
        OpCode::Forward => Some(Instruction::Forward),
        OpCode::Backward => Some(Instruction::Backward),
        OpCode::Increase => Some(Instruction::Increase),
        OpCode::Decrease => Some(Instruction::Decrease),
        OpCode::Write => Some(Instruction::Write),
        OpCode::Read => Some(Instruction::Read),
        _ => None,
    }
}

/// The operations other than loop markers, in order, as instructions.
pub open spec fn strip(ops: Seq<OpCode>) -> Seq<Instruction>
    decreases ops.len(),
{
    if ops.len() == 0 {
        seq![]
    } else {
        let head = match plain_of(ops[0]) {
            Some(x) => seq![x],
            None => seq![],
        };
        head + strip(ops.drop_first())
    }
}

/// The instructions of a tree in order, each loop replaced by its body.
pub open spec fn flatten(prog: Seq<Instruction>) -> Seq<Instruction>
    decreases prog,
{
    if prog.len() == 0 {
        seq![]
    } else {
        match prog[0] {
            Instruction::Loop(body) => flatten(body@) + flatten(prog.drop_first()),
            _ => seq![prog[0]] + flatten(prog.drop_first()),
        }
    }
}

/// Two trees have the same shape: the same instructions in the same
/// places, loops with bodies of the same shape.
pub open spec fn same_tree(a: Seq<Instruction>, b: Seq<Instruction>) -> bool
    decreases a,
{
    if a.len() != b.len() {
        false
    } else if a.len() == 0 {
        true
    } else {
        let head = if let Instruction::Loop(x) = a[0] {
            b[0] is Loop && same_tree(x@, b[0]->Loop_0@)
        } else {
            a[0] == b[0]
        };
        head && same_tree(a.drop_first(), b.drop_first())
    }
}

proof fn lemma_strip_append(a: Seq<OpCode>, b: Seq<OpCode>)
    ensures
        strip(a + b) == strip(a) + strip(b),
    decreases a.len(),
{
    if a.len() == 0 {
        assert(a + b =~= b);
        assert(strip(a) + strip(b) =~= strip(b));
    } else {
        assert((a + b).drop_first() =~= a.drop_first() + b);
        assert((a + b)[0] == a[0]);
        lemma_strip_append(a.drop_first(), b);
        assert(strip(a + b) =~= strip(a) + strip(b));
    }
}

#[verifier::rlimit(40)]
proof fn lemma_flatten_render(t: Seq<Instruction>)
    ensures
        flatten(t) == strip(render(t)),
    decreases t,
{
    if t.len() > 0 {
        let rest = t.drop_first();
        lemma_flatten_render(rest);
        match t[0] {
            Instruction::Loop(body) => {
                lemma_flatten_render(body@);
                let b = seq![OpCode::BeginLoop];
                let e = seq![OpCode::EndLoop];
                lemma_strip_append(b + render(body@) + e, render(rest));
                lemma_strip_append(b + render(body@), e);
                lemma_strip_append(b, render(body@));
                reveal_with_fuel(strip, 2);
                assert(strip(b) =~= seq![]);
                assert(strip(e) =~= seq![]);
                assert(flatten(t) =~= strip(render(t)));
            },
            _ => {
                let h = seq![render(t)[0]];
                assert(render(t) =~= h + render(rest));
                lemma_strip_append(h, render(rest));
                reveal_with_fuel(strip, 2);
                assert(flatten(t) =~= strip(render(t)));
            },
        }
    } else {
        assert(flatten(t) =~= strip(render(t)));
    }
}

/// Structuring keeps the order of the operations: flattening the tree
/// (each loop replaced by its body) gives the operations other than loop
/// markers, in the order they came.
pub proof fn law_structure_keeps_order(ops: Seq<OpCode>, r: Seq<Instruction>)
    requires
        balanced(ops),
        render(r) == ops,
    ensures
        flatten(r) == strip(ops),
{
    lemma_flatten_render(r);
}

proof fn lemma_depth_append(a: Seq<OpCode>, b: Seq<OpCode>)
    ensures
        depth(a + b) == depth(a) + depth(b),
    decreases b.len(),
{
    if b.len() == 0 {
        assert(a + b =~= a);
    } else {
        assert((a + b).drop_last() =~= a + b.drop_last());
        lemma_depth_append(a, b.drop_last());
    }
}

#[verifier::rlimit(40)]
proof fn lemma_render_balanced(t: Seq<Instruction>)
    ensures
        balanced(render(t)),
    decreases t,
{
    let s = render(t);
    if t.len() == 0 {
        assert forall|i: int| 0 <= i <= s.len() implies depth(#[trigger] s.take(i)) >= 0 by {
            assert(s.take(i) =~= seq![]);
        }
    } else {
        let rest = render(t.drop_first());
        lemma_render_balanced(t.drop_first());
        let x = s.subrange(0, s.len() - rest.len());
        assert(s =~= x + rest);
        lemma_depth_append(x, rest);
        match t[0] {
            Instruction::Loop(body) => {
                let inner = render(body@);
                lemma_render_balanced(body@);
                let b = seq![OpCode::BeginLoop];
                let e = seq![OpCode::EndLoop];
                assert(x =~= b + inner + e);
                lemma_depth_append(b + inner, e);
                lemma_depth_append(b, inner);
                assert(depth(b) == 1) by {
                    assert(b.drop_last() =~= seq![]);
                    reveal_with_fuel(depth, 2);
                }
                assert(depth(e) == -1) by {
                    assert(e.drop_last() =~= seq![]);
                    reveal_with_fuel(depth, 2);
                }
                assert forall|i: int| 0 <= i <= s.len() implies depth(#[trigger] s.take(i)) >= 0 by {
                    if i == 0 {
                        assert(s.take(i) =~= seq![]);
                    } else if i <= inner.len() + 1 {
                        assert(s.take(i) =~= b + inner.take(i - 1));
                        lemma_depth_append(b, inner.take(i - 1));
                    } else if i == inner.len() + 2 {
                        assert(s.take(i) =~= x);
                    } else {
                        assert(s.take(i) =~= x + rest.take(i - x.len()));
                        lemma_depth_append(x, rest.take(i - x.len()));
                    }
                }
            },
            _ => {
                assert(x.len() == 1);
                assert(x.drop_last() =~= seq![]);
                assert(depth(x) == 0) by {
                    reveal_with_fuel(depth, 2);
                }
                assert forall|i: int| 0 <= i <= s.len() implies depth(#[trigger] s.take(i)) >= 0 by {
                    if i == 0 {
                        assert(s.take(i) =~= seq![]);
                    } else {
                        assert(s.take(i) =~= x + rest.take(i - 1));
                        lemma_depth_append(x, rest.take(i - 1));
                    }
                }
            },
        }
    }
}

proof fn lemma_no_early_close(p: Seq<OpCode>, q: Seq<OpCode>)
    requires
        balanced(p),
        balanced(q),
        p.len() < q.len(),
        p == q.take(p.len() as int),
    ensures
        q[p.len() as int] != OpCode::EndLoop,
{
    lemma_depth_take(q, p.len() as int);
    assert(depth(q.take(p.len() as int + 1)) >= 0);
}

proof fn lemma_render_head(t: Seq<Instruction>)
    requires
        t.len() > 0,
    ensures
        !(t[0] is Loop) ==> render(t) == seq![render(t)[0]] + render(t.drop_first())
            && plain_of(render(t)[0]) == Some(t[0]),
        t[0] is Loop ==> render(t) == seq![OpCode::BeginLoop] + render(t[0]->Loop_0@) + seq![
            OpCode::EndLoop,
        ] + render(t.drop_first()),
        t[0] is Loop <==> render(t)[0] == OpCode::BeginLoop,
{
    if !(t[0] is Loop) {
        assert(render(t) =~= seq![render(t)[0]] + render(t.drop_first()));
    }
}

#[verifier::rlimit(40)]
proof fn lemma_render_injective(r: Seq<Instruction>, t: Seq<Instruction>)
    requires
        render(r) == render(t),
    ensures
        same_tree(r, t),
    decreases t,
{
    let s = render(t);
    if t.len() == 0 {
        if r.len() > 0 {
            assert(render(r).len() > 0);
        }
    } else if r.len() == 0 {
        assert(s.len() > 0);
    } else {
        let rr = render(r.drop_first());
        let tr = render(t.drop_first());
        let b = seq![OpCode::BeginLoop];
        let e = seq![OpCode::EndLoop];
        lemma_render_head(r);
        lemma_render_head(t);
        if let Instruction::Loop(bt) = t[0] {
            let br = r[0]->Loop_0;
            let rb = render(br@);
            let tb = render(bt@);
            lemma_render_balanced(br@);
            lemma_render_balanced(bt@);
            assert(s =~= b + tb + e + tr);
            assert(s =~= b + rb + e + rr);
            assert forall|j: int| 0 <= j < rb.len() && j < tb.len() implies rb[j] == tb[j] by {
                assert(s[j + 1] == (b + rb + e + rr)[j + 1]);
                assert(s[j + 1] == (b + tb + e + tr)[j + 1]);
            }
            if rb.len() < tb.len() {
                assert(rb =~= tb.take(rb.len() as int));
                lemma_no_early_close(rb, tb);
                assert(s[rb.len() as int + 1] == OpCode::EndLoop);
            } else if tb.len() < rb.len() {
                assert(tb =~= rb.take(tb.len() as int));
                lemma_no_early_close(tb, rb);
                assert(s[tb.len() as int + 1] == OpCode::EndLoop);
            }
            assert(rb =~= tb);
            let k = rb.len() as int + 2;
            assert(rr =~= s.subrange(k, s.len() as int));
            assert(tr =~= s.subrange(k, s.len() as int));
            lemma_render_injective(br@, bt@);
            lemma_render_injective(r.drop_first(), t.drop_first());
        } else {
            assert(rr =~= s.drop_first());
            assert(tr =~= s.drop_first());
            lemma_render_injective(r.drop_first(), t.drop_first());
        }
    }
}

/// Structuring the text of a tree gives a tree of the same shape: the text
/// tokenizes to balanced operations, and a tree with exactly those
/// operations, as structuring returns, has the shape of the first one.
pub proof fn law_restructure(t: Seq<Instruction>, r: Seq<Instruction>)
    requires
        render(r) == tokens(text(render(t))),
    ensures
        balanced(tokens(text(render(t)))),
        same_tree(r, t),
{
    lemma_tokens_of_text(render(t));
    lemma_render_balanced(t);
    lemma_render_injective(r, t);
}

} // verus!
