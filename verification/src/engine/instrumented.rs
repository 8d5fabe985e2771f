//! Instrumented code is woven code.
//!
//! The instrumentation pass writes down, instruction by instruction, what stands in front of it
//! and behind it. Read back, that is the plain function with instructions woven in: each one is
//! where its guards leave it, and each construct still ends at its own `end`.
use crate::canon::{
    Config, Emitted, ErrorView, Facts, FloatWidth, Plan, added_locals, charged_at, code_bytes,
    code_rewritten, escaping, fixed_after, fixed_before, injected, is_boundary,
    law_each_instruction_has_its_guards, law_functions_stay_apart, minted, needs_scratch, params_at,
    place, run_length, scratch_locals, shifted, uses_scratch,
};
use crate::encode::Injected;
use crate::engine::execution::{started, table_of};
use crate::engine::image::{
    Bracket, Control, Function, Image, Nesting, bracket, clamped, declared_locals,
    law_constructs_nest, nest, nested, resolved,
};
use crate::engine::machine::Limits;
use crate::engine::numeric::TrapView;
use crate::engine::operator::{BlockType, Operator, same_operator};
use crate::engine::payloads::{
    ends_with, endings_alike, law_payloads_do_not_change_the_answer,
};
use crate::engine::runs::{elses, is_resolved, law_fuel_is_the_instructions_executed};
use crate::engine::weaving::{
    Ending, Weave, canonical, control_moved, counts_locals, ends, fix_len, fixes_at,
    guarded_ends, is_bare,
    law_canonicalizations_agree, law_metering_does_not_change_the_answer, lemma_begin,
    names_locals, pays_nothing, same_but_code, stands_for, unequal, weaves, woven,
};
use crate::module::BodyView;
use crate::state::Value;
use vstd::prelude::*;

verus! {

/// What the pass weaves into a function with some number of locals.
pub open spec fn weave_for(plan: Plan, ops: Seq<Operator>, locals: nat, more: nat) -> Weave {
    Weave {
        amounts: Seq::new(ops.len(), |i: int| charged_at(plan.config, ops, i)),
        before: Seq::new(ops.len(), |i: int| fixed_before(plan.config, ops[i], plan.globals)),
        after: Seq::new(ops.len(), |i: int| fixed_after(plan.config, ops[i])),
        locals,
        more,
        scratch_f32: plan.scratch_f32,
        scratch_f64: plan.scratch_f64,
    }
}

/// The code that the pass writes has the length of what is woven, and every instruction of the
/// original is where its guards leave it.
pub proof fn law_the_pass_weaves(plan: Plan, ops: Seq<Operator>, locals: nat, more: nat, n: nat)
    requires
        n <= ops.len(),
    ensures
        plan.emitted(ops, n).len() == weave_for(plan, ops, locals, more).begin(n as int),
        forall|i: int|
            0 <= i < n ==> #[trigger] place(plan, ops, i) == weave_for(
                plan,
                ops,
                locals,
                more,
            ).moved(i),
    decreases n,
{
    let w = weave_for(plan, ops, locals, more);
    if n > 0 {
        let m = (n - 1) as nat;
        law_the_pass_weaves(plan, ops, locals, more, m);
        assert(plan.charge(ops, m as int).len() == w.charge_len(m as int));
        assert(plan.fix(w.before[m as int]).len() == fix_len(w.before[m as int]));
        assert(plan.fix(w.after[m as int]).len() == fix_len(w.after[m as int]));
    }
}

/// The instruction that was written in between, once it is read. A `return_call` and a `ref.func`
/// are only ever written for one of the original.
pub open spec fn operator_of(i: Injected) -> Operator {
    match i {
        Injected::I32Const(value) => Operator::I32Const { value },
        Injected::Call(function_index) => Operator::Call { function_index },
        Injected::LocalTee(local_index) => Operator::LocalTee { local_index },
        Injected::LocalGet(local_index) => Operator::LocalGet { local_index },
        Injected::F32Ne => Operator::F32Ne,
        Injected::F64Ne => Operator::F64Ne,
        Injected::IfF32 | Injected::IfF64 => Operator::If { blockty: BlockType::Value },
        Injected::F32Const(value) => Operator::F32Const { value },
        Injected::F64Const(value) => Operator::F64Const { value },
        Injected::Else => Operator::Else,
        Injected::End => Operator::End,
        Injected::ReturnCall(_) | Injected::RefFunc(_) => Operator::Nop,
    }
}

/// Is this what something emitted reads as, where the plain code is known?
pub open spec fn reads_as(e: Emitted, plain: Seq<Operator>, op: Operator) -> bool {
    match e {
        Emitted::Original(i) => same_operator(plain[i], op),
        Emitted::Injected(i) => op == operator_of(i),
    }
}

/// Is this what all that is emitted reads as?
pub open spec fn read_back(e: Seq<Emitted>, plain: Seq<Operator>, ops: Seq<Operator>) -> bool {
    &&& ops.len() == e.len()
    &&& forall|k: int| 0 <= k < e.len() ==> reads_as(e[k], plain, #[trigger] ops[k])
}

/// Are two instructions the same to the pass and to the nesting of constructs?
pub open spec fn treated_alike(
    a: Operator,
    b: Operator,
    globals: Seq<Option<FloatWidth>>,
) -> bool {
    &&& minted(a) == minted(b)
    &&& escaping(a, globals) == escaping(b, globals)
    &&& bracket(a) == bracket(b)
}

/// The instructions that fix a value, without where their construct ends.
spec fn fixes(g: Seq<Operator>, width: FloatWidth, scratch: u32, at: int) -> bool {
    &&& 0 <= at && at + 8 <= g.len()
    &&& g[at] == (Operator::LocalTee { local_index: scratch })
    &&& g[at + 1] == (Operator::LocalGet { local_index: scratch })
    &&& g[at + 2] == unequal(width)
    &&& g[at + 3] == (Operator::If { blockty: BlockType::Value })
    &&& g[at + 4] == canonical(width)
    &&& g[at + 5] == Operator::Else
    &&& g[at + 6] == (Operator::LocalGet { local_index: scratch })
    &&& g[at + 7] == Operator::End
}

/// What stands for an instruction, without where constructs end.
spec fn laid_out(charge: u32, w: Weave, f: Seq<Operator>, g: Seq<Operator>, i: int) -> bool {
    let at = w.begin(i);
    &&& w.amounts[i] > 0 ==> g[at] == (Operator::I32Const { value: w.amounts[i] as i32 })
    &&& w.amounts[i] > 0 ==> g[at + 1] == (Operator::Call { function_index: charge })
    &&& w.before[i] matches Some(width) ==> fixes(g, width, w.scratch(width), w.paid(i))
    &&& same_operator(f[i], g[w.moved(i)])
    &&& w.after[i] matches Some(width) ==> fixes(g, width, w.scratch(width), w.moved(i) + 1)
}

proof fn lemma_fixes(
    plan: Plan,
    e: Seq<Emitted>,
    f: Seq<Operator>,
    g: Seq<Operator>,
    width: FloatWidth,
    at: int,
)
    requires
        read_back(e, f, g),
        0 <= at <= at + 8 <= e.len(),
        e.subrange(at, at + 8) == injected(plan.fix(Some(width))),
    ensures
        fixes(g, width, plan.scratch(width), at),
{
    let list = plan.fix(Some(width));
    assert forall|k: int| 0 <= k < 8 implies #[trigger] g[at + k] == operator_of(list[k]) by {
        assert(e[at + k] == e.subrange(at, at + 8)[k]);
        assert(reads_as(e[at + k], f, g[at + k]));
    }
    assert(g[at + 0] == operator_of(list[0]));
    assert(g[at + 1] == operator_of(list[1]));
    assert(g[at + 2] == operator_of(list[2]));
    assert(g[at + 3] == operator_of(list[3]));
    assert(g[at + 4] == operator_of(list[4]));
    assert(g[at + 5] == operator_of(list[5]));
    assert(g[at + 6] == operator_of(list[6]));
    assert(g[at + 7] == operator_of(list[7]));
}

proof fn lemma_laid_out(
    plan: Plan,
    ops: Seq<Operator>,
    w: Weave,
    f: Seq<Operator>,
    g: Seq<Operator>,
    i: int,
)
    requires
        w == weave_for(plan, ops, w.locals, w.more),
        read_back(plan.emitted(ops, ops.len()), f, g),
        0 <= i < ops.len(),
    ensures
        laid_out(plan.imported, w, f, g, i),
{
    let e = plan.emitted(ops, ops.len());
    law_the_pass_weaves(plan, ops, w.locals, w.more, ops.len());
    law_each_instruction_has_its_guards(plan, ops, i, ops.len());
    let at = place(plan, ops, i);
    assert(at == w.moved(i));
    let charge = plan.charge(ops, i);
    let before = plan.fix(w.before[i]);
    let after = plan.fix(w.after[i]);
    assert(charge.len() == w.charge_len(i));
    assert(before.len() == fix_len(w.before[i]));
    assert(after.len() == fix_len(w.after[i]));
    assert(reads_as(e[at], f, g[at]));
    if w.amounts[i] > 0 {
        let s = e.subrange(at - before.len() - charge.len(), at - before.len());
        assert(e[w.begin(i)] == s[0]);
        assert(e[w.begin(i) + 1] == s[1]);
        assert(reads_as(e[w.begin(i)], f, g[w.begin(i)]));
        assert(reads_as(e[w.begin(i) + 1], f, g[w.begin(i) + 1]));
    }
    if let Some(width) = w.before[i] {
        lemma_fixes(plan, e, f, g, width, w.paid(i));
    }
    if let Some(width) = w.after[i] {
        lemma_fixes(plan, e, f, g, width, at + 1);
    }
}

proof fn lemma_unbracketed(g: Seq<Operator>, n: nat)
    requires
        bracket(g[n as int]) is Neither,
    ensures
        nested(g, n + 1) == nested(g, n),
{
}

/// Where the construct of a sequence that fixes a value ends.
spec fn fix_control(at: int) -> Option<Control> {
    Some(Control { end: (at + 7) as u32, otherwise: Some((at + 5) as u32) })
}

proof fn lemma_nested_fix(g: Seq<Operator>, width: FloatWidth, scratch: u32, at: nat, t: Nesting)
    requires
        fixes(g, width, scratch, at as int),
        g.len() < u32::MAX,
        nested(g, at) == Some(t),
        t.control.len() == g.len(),
    ensures
        nested(g, at + 8) == Some(
            Nesting { control: t.control.update(at as int + 3, fix_control(at as int)), open: t.open },
        ),
{
    lemma_unbracketed(g, at);
    lemma_unbracketed(g, at + 1);
    lemma_unbracketed(g, at + 2);
    let opened = Nesting {
        control: t.control.update(at as int + 3, Some(Control { end: u32::MAX, otherwise: None })),
        open: t.open.push(at + 3),
    };
    assert(nested(g, at + 4) == Some(opened));
    lemma_unbracketed(g, at + 4);
    let middle = nest(opened, at + 5, Bracket::Middle)->0;
    assert(nested(g, at + 6) == Some(middle));
    lemma_unbracketed(g, at + 6);
    let closed = nest(middle, at + 7, Bracket::Close)->0;
    assert(nested(g, at + 8) == Some(closed));
    assert(closed.open =~= t.open);
    assert(closed.control =~= t.control.update(at as int + 3, fix_control(at as int)));
}

/// The annotation of a construct that has been moved. One that is still open has no end yet.
spec fn moved_control(w: Weave, c: Option<Control>) -> Option<Control> {
    match c {
        None => None,
        Some(c) => Some(
            Control {
                end: if c.end == u32::MAX {
                    c.end
                } else {
                    w.moved(c.end as int) as u32
                },
                otherwise: match c.otherwise {
                    None => None,
                    Some(x) => Some(w.moved(x as int) as u32),
                },
            },
        ),
    }
}

/// How far code and what is woven into it have been read.
struct Reach {
    /// How many plain instructions.
    plain: int,
    /// How many sequences in front of one.
    before: int,
    /// How many sequences behind one.
    after: int,
    /// How many instructions in all.
    all: int,
}

/// Are the annotations made so far those of the plain code, moved?
spec fn follows(w: Weave, r: Reach, s: Nesting, t: Nesting) -> bool {
    &&& s.control.len() == w.len()
    &&& t.control.len() == w.begin(w.len() as int)
    &&& opens_follow(w, r.plain, s, t)
    &&& plain_follows(w, r.plain, s.control, t.control)
    &&& forall|i: int| r.plain <= i < w.len() ==> #[trigger] s.control[i] is None
    &&& forall|j: int| r.all <= j < t.control.len() ==> #[trigger] t.control[j] is None
    &&& fixes_follow(w, r, t.control)
}

/// Are the open constructs those of the plain code, moved?
spec fn opens_follow(w: Weave, n: int, s: Nesting, t: Nesting) -> bool {
    &&& s.open.len() == t.open.len()
    &&& forall|k: int|
        0 <= k < s.open.len() ==> (#[trigger] s.open[k]) < n && t.open[k] == w.moved(
            s.open[k] as int,
        ) && s.control[s.open[k] as int] is Some
}

/// Are the annotations of plain instructions moved?
spec fn plain_follows(w: Weave, n: int, s: Seq<Option<Control>>, t: Seq<Option<Control>>) -> bool {
    forall|i: int| 0 <= i < n ==> t[w.moved(i)] == moved_control(w, #[trigger] s[i])
}

/// Are the sequences that fix a value annotated?
spec fn fixes_follow(w: Weave, r: Reach, t: Seq<Option<Control>>) -> bool {
    &&& forall|i: int|
        0 <= i < r.before && w.before[i] is Some ==> t[#[trigger] w.paid(i) + 3] == fix_control(
            w.paid(i),
        )
    &&& forall|i: int|
        0 <= i < r.after && w.after[i] is Some ==> t[#[trigger] w.moved(i) + 4] == fix_control(
            w.moved(i) + 1,
        )
}

/// All that stands for the first instructions.
spec fn up_to(w: Weave, n: int) -> Reach {
    Reach { plain: n, before: n, after: n, all: w.begin(n) }
}

/// That, and all that stands in front of the next one.
spec fn in_front(w: Weave, n: int) -> Reach {
    Reach { plain: n, before: n + 1, after: n, all: w.moved(n) }
}

/// That, and the instruction itself.
spec fn behind(w: Weave, n: int) -> Reach {
    Reach { plain: n + 1, before: n + 1, after: n, all: w.moved(n) + 1 }
}

proof fn lemma_elsewhere(w: Weave, i: int, p: int)
    requires
        0 <= i,
        0 <= p,
    ensures
        i != p ==> w.moved(i) != w.moved(p),
        w.before[i] is Some ==> w.paid(i) + 3 != w.moved(p),
        w.after[i] is Some ==> w.moved(i) + 4 != w.moved(p),
{
    lemma_begin(w, i, i);
    lemma_begin(w, p, p);
    if i < p {
        lemma_begin(w, i, p);
    }
    if p < i {
        lemma_begin(w, p, i);
    }
}

proof fn lemma_fixed_in_front(w: Weave, n: int, s: Nesting, t: Nesting)
    requires
        0 <= n < w.len(),
        follows(w, up_to(w, n), s, t),
    ensures
        ({
            let control = if w.before[n] is Some {
                t.control.update(w.paid(n) + 3, fix_control(w.paid(n)))
            } else {
                t.control
            };
            follows(w, in_front(w, n), s, Nesting { control, open: t.open })
        }),
{
    lemma_begin(w, n, w.len() as int);
    if w.before[n] is Some {
        let y = Nesting {
            control: t.control.update(w.paid(n) + 3, fix_control(w.paid(n))),
            open: t.open,
        };
        assert forall|i: int| 0 <= i < n implies y.control[w.moved(i)] == moved_control(
            w,
            #[trigger] s.control[i],
        ) by {
            lemma_begin(w, i, n);
        }
        assert forall|i: int| 0 <= i < n + 1 && w.before[i] is Some implies
            y.control[#[trigger] w.paid(i) + 3] == fix_control(w.paid(i)) by {
            if i < n {
                lemma_begin(w, i, n);
            }
        }
        assert forall|i: int| 0 <= i < n && w.after[i] is Some implies
            y.control[#[trigger] w.moved(i) + 4] == fix_control(w.moved(i) + 1) by {
            lemma_begin(w, i, n);
        }
    }
}

proof fn lemma_fixed_behind(w: Weave, n: int, s: Nesting, t: Nesting)
    requires
        0 <= n < w.len(),
        follows(w, behind(w, n), s, t),
    ensures
        ({
            let control = if w.after[n] is Some {
                t.control.update(w.moved(n) + 4, fix_control(w.moved(n) + 1))
            } else {
                t.control
            };
            follows(w, up_to(w, n + 1), s, Nesting { control, open: t.open })
        }),
{
    lemma_begin(w, n, w.len() as int);
    lemma_begin(w, n + 1, w.len() as int);
    if w.after[n] is Some {
        let y = Nesting {
            control: t.control.update(w.moved(n) + 4, fix_control(w.moved(n) + 1)),
            open: t.open,
        };
        assert forall|i: int| 0 <= i < n + 1 implies y.control[w.moved(i)] == moved_control(
            w,
            #[trigger] s.control[i],
        ) by {
            if i < n {
                lemma_begin(w, i, n);
            }
        }
        assert forall|i: int| 0 <= i < n + 1 && w.before[i] is Some implies
            y.control[#[trigger] w.paid(i) + 3] == fix_control(w.paid(i)) by {
            lemma_begin(w, i, i);
            if i < n {
                lemma_begin(w, i, n);
            }
        }
        assert forall|i: int| 0 <= i < n + 1 && w.after[i] is Some implies
            y.control[#[trigger] w.moved(i) + 4] == fix_control(w.moved(i) + 1) by {
            if i < n {
                lemma_begin(w, i, n);
            }
        }
    }
}

proof fn lemma_fixes_kept(
    w: Weave,
    r: Reach,
    t: Seq<Option<Control>>,
    p: int,
    d: Option<Control>,
)
    requires
        0 <= p < w.len(),
        r.before <= w.len(),
        r.after <= w.len(),
        t.len() == w.begin(w.len() as int),
        fixes_follow(w, r, t),
    ensures
        fixes_follow(w, r, t.update(w.moved(p), d)),
{
    let y = t.update(w.moved(p), d);
    lemma_begin(w, p, w.len() as int);
    assert forall|i: int| 0 <= i < r.before && w.before[i] is Some implies
        y[#[trigger] w.paid(i) + 3] == fix_control(w.paid(i)) by {
        lemma_elsewhere(w, i, p);
        lemma_begin(w, i, w.len() as int);
    }
    assert forall|i: int| 0 <= i < r.after && w.after[i] is Some implies
        y[#[trigger] w.moved(i) + 4] == fix_control(w.moved(i) + 1) by {
        lemma_elsewhere(w, i, p);
        lemma_begin(w, i, w.len() as int);
    }
}

proof fn lemma_plain_kept(
    w: Weave,
    n: int,
    s: Seq<Option<Control>>,
    t: Seq<Option<Control>>,
    p: int,
    c: Option<Control>,
)
    requires
        0 <= p <= n < w.len() == s.len(),
        t.len() == w.begin(w.len() as int),
        plain_follows(w, n, s, t),
        s[n] is None,
        t[w.moved(n)] is None,
    ensures
        plain_follows(w, n + 1, s.update(p, c), t.update(w.moved(p), moved_control(w, c))),
{
    let (x, y) = (s.update(p, c), t.update(w.moved(p), moved_control(w, c)));
    assert forall|i: int| 0 <= i < n + 1 implies y[w.moved(i)] == moved_control(
        w,
        #[trigger] x[i],
    ) by {
        lemma_elsewhere(w, i, p);
        lemma_begin(w, i, w.len() as int);
        lemma_begin(w, p, w.len() as int);
        if i < n {
            assert(t[w.moved(i)] == moved_control(w, s[i]));
        }
    }
}

/// An annotation at a plain instruction leaves those of what is woven in.
proof fn lemma_annotated(
    w: Weave,
    n: int,
    s: Nesting,
    t: Nesting,
    p: int,
    c: Option<Control>,
    x: Nesting,
    y: Nesting,
)
    requires
        0 <= p <= n < w.len(),
        follows(w, in_front(w, n), s, t),
        x.control == s.control.update(p, c),
        y.control == t.control.update(w.moved(p), moved_control(w, c)),
        opens_follow(w, n + 1, x, y),
    ensures
        follows(w, behind(w, n), x, y),
{
    lemma_begin(w, n, w.len() as int);
    lemma_begin(w, p, n);
    assert(s.control[n] is None);
    assert(t.control[w.moved(n)] is None);
    lemma_plain_kept(w, n, s.control, t.control, p, c);
    lemma_fixes_kept(w, behind(w, n), t.control, p, moved_control(w, c));
}

/// Reading a plain instruction where it has been moved to.
proof fn lemma_follows_one(w: Weave, n: int, s: Nesting, t: Nesting, b: Bracket)
    requires
        0 <= n < w.len(),
        w.begin(w.len() as int) < u32::MAX,
        follows(w, in_front(w, n), s, t),
        nest(s, n as nat, b) is Some,
    ensures
        nest(t, w.moved(n) as nat, b) is Some,
        follows(w, behind(w, n), nest(s, n as nat, b)->0, nest(t, w.moved(n) as nat, b)->0),
{
    let at = w.moved(n);
    lemma_begin(w, 0, w.len() as int);
    lemma_begin(w, n, w.len() as int);
    let x = nest(s, n as nat, b)->0;
    let y = nest(t, at as nat, b)->0;
    assert(s.control[n] is None && t.control[at] is None);
    if s.open.len() > 0 {
        let p = s.open[s.open.len() - 1] as int;
        assert(t.open[s.open.len() - 1] == w.moved(p));
        lemma_begin(w, p, w.len() as int);
        assert(t.control[w.moved(p)] == moved_control(w, s.control[p]));
        if b is Middle || b is Close {
            let c = x.control[p];
            assert(x.control =~= s.control.update(p, c));
            assert(y.control =~= t.control.update(w.moved(p), moved_control(w, c)));
            assert forall|k: int| 0 <= k < x.open.len() implies (#[trigger] x.open[k]) <= n
                && y.open[k] == w.moved(x.open[k] as int) && x.control[x.open[k] as int] is Some by {
                assert(x.open[k] == s.open[k]);
            }
            lemma_annotated(w, n, s, t, p, c, x, y);
        }
    }
    if b is Open {
        let c = x.control[n];
        assert(x.control =~= s.control.update(n, c));
        assert(y.control =~= t.control.update(at, moved_control(w, c)));
        assert forall|k: int| 0 <= k < x.open.len() implies (#[trigger] x.open[k]) <= n
            && y.open[k] == w.moved(x.open[k] as int) && x.control[x.open[k] as int] is Some by {
            if k < s.open.len() {
                assert(x.open[k] == s.open[k]);
            }
        }
        lemma_annotated(w, n, s, t, n, c, x, y);
    }
    if b is Neither || (b is Close && s.open.len() == 0) {
        let c = x.control[n];
        assert(x.control =~= s.control.update(n, c));
        assert(y.control =~= t.control.update(at, moved_control(w, c)));
        assert forall|k: int| 0 <= k < x.open.len() implies (#[trigger] x.open[k]) <= n
            && y.open[k] == w.moved(x.open[k] as int) && x.control[x.open[k] as int] is Some by {
            assert(x.open[k] == s.open[k]);
        }
        lemma_annotated(w, n, s, t, n, c, x, y);
    }
}

proof fn lemma_follows(charge: u32, w: Weave, f: Seq<Operator>, g: Seq<Operator>, n: nat)
    requires
        w.len() == w.before.len() == w.after.len() == f.len(),
        g.len() == w.begin(w.len() as int) < u32::MAX,
        forall|i: int| 0 <= i < w.len() ==> #[trigger] laid_out(charge, w, f, g, i),
        n <= w.len(),
        nested(f, n) is Some,
    ensures
        nested(g, w.begin(n as int) as nat) is Some,
        follows(
            w,
            up_to(w, n as int),
            nested(f, n)->0,
            nested(g, w.begin(n as int) as nat)->0,
        ),
    decreases n,
{
    if n > 0 {
        let m = (n - 1) as nat;
        lemma_follows(charge, w, f, g, m);
        let i = m as int;
        lemma_begin(w, i, w.len() as int);
        assert(laid_out(charge, w, f, g, i));
        let s = nested(f, m)->0;
        let t = nested(g, w.begin(i) as nat)->0;
        let (first, at) = (w.begin(i) as nat, w.moved(i) as nat);
        if w.amounts[i] > 0 {
            lemma_unbracketed(g, first);
            lemma_unbracketed(g, first + 1);
        }
        assert(nested(g, w.paid(i) as nat) == Some(t));
        lemma_fixed_in_front(w, i, s, t);
        let control = if w.before[i] is Some {
            t.control.update(w.paid(i) + 3, fix_control(w.paid(i)))
        } else {
            t.control
        };
        let u = Nesting { control, open: t.open };
        if let Some(width) = w.before[i] {
            lemma_nested_fix(g, width, w.scratch(width), w.paid(i) as nat, t);
        }
        assert(nested(g, at) == Some(u));
        assert(bracket(f[i]) == bracket(g[w.moved(i)]));
        let x = nested(f, n)->0;
        lemma_follows_one(w, i, s, u, bracket(f[i]));
        let y = nest(u, at, bracket(f[i]))->0;
        assert(nested(g, at + 1) == Some(y));
        lemma_fixed_behind(w, i, x, y);
        if let Some(width) = w.after[i] {
            lemma_nested_fix(g, width, w.scratch(width), at + 1, y);
        }
    } else {
        assert(nested(f, 0)->0.control.len() == w.len());
    }
}

/// Is one function what the pass writes for another, read back? The other is the plain one, with
/// references to functions remapped and nothing added.
pub open spec fn instruments(
    plan: Plan,
    ops: Seq<Operator>,
    w: Weave,
    f: Function,
    g: Function,
) -> bool {
    &&& w == weave_for(plan, ops, w.locals, w.more)
    &&& has_scratch(plan, ops, w)
    &&& ops.len() == f.ops@.len()
    &&& forall|i: int|
        0 <= i < ops.len() ==> treated_alike(
            ops[i],
            #[trigger] f.ops@[i],
            plan.globals,
        ) && names_locals(
            f.ops@[i],
            w.locals,
        ) && f.ops@[i] != (Operator::Call { function_index: plan.imported })
    &&& read_back(plan.emitted(ops, ops.len()), f.ops@, g.ops@)
    &&& g.ops@.len() < u32::MAX
    &&& resolved(f.ops@) == Some(f.control@)
    &&& resolved(g.ops@) == Some(g.control@)
    &&& g.local_types@.len() == f.local_types@.len() + w.more
    &&& forall|k: int|
        0 <= k < f.local_types@.len() ==> (#[trigger] f.local_types@[k]).deep_view()
            == g.local_types@[k].deep_view()
}

/// Are the scratch locals where the pass puts them, behind the parameters and what the function
/// declares?
pub open spec fn has_scratch(plan: Plan, ops: Seq<Operator>, w: Weave) -> bool {
    let f32s = needs_scratch(plan.config, ops, plan.globals, FloatWidth::F32);
    let f64s = needs_scratch(plan.config, ops, plan.globals, FloatWidth::F64);
    &&& scratch_locals(0, w.locals, f32s) == Ok::<(u32, u32), ErrorView>(
        (plan.scratch_f32, plan.scratch_f64),
    )
    &&& w.more == added_locals(f32s, f64s).len()
}

proof fn lemma_keeps(plan: Plan, ops: Seq<Operator>, w: Weave, i: int, width: FloatWidth)
    requires
        w == weave_for(plan, ops, w.locals, w.more),
        has_scratch(plan, ops, w),
        0 <= i < ops.len(),
        w.before[i] == Some(width) || w.after[i] == Some(width),
    ensures
        w.keeps(width),
{
    assert(uses_scratch(plan.config, ops[i], plan.globals, width));
    assert(needs_scratch(plan.config, ops, plan.globals, width));
}

/// Nothing is fixed around an instruction that closes or parts a construct.
proof fn lemma_bare(plan: Plan, ops: Seq<Operator>, w: Weave, i: int)
    requires
        w == weave_for(plan, ops, w.locals, w.more),
        0 <= i < ops.len(),
        bracket(ops[i]) is Close || bracket(ops[i]) is Middle,
    ensures
        is_bare(w, i),
{
}

/// Instrumenting a function weaves instructions into it: if what the pass has written is read
/// back as it was written, the instrumented function is the plain one with those instructions
/// woven in, and every construct ends where it did.
pub proof fn law_instrumenting_weaves(
    plan: Plan,
    ops: Seq<Operator>,
    w: Weave,
    f: Function,
    g: Function,
)
    requires
        instruments(plan, ops, w, f, g),
    ensures
        woven(plan.imported, w, f, g),
{
    law_the_pass_weaves(plan, ops, w.locals, w.more, ops.len());
    assert forall|i: int| 0 <= i < w.len() implies #[trigger] laid_out(
        plan.imported,
        w,
        f.ops@,
        g.ops@,
        i,
    ) by {
        lemma_laid_out(plan, ops, w, f.ops@, g.ops@, i);
    }
    lemma_follows(plan.imported, w, f.ops@, g.ops@, ops.len());
    lemma_begin(w, 0, w.len() as int);
    let (s, t) = (nested(f.ops@, ops.len())->0, nested(g.ops@, g.ops@.len())->0);
    assert(f.control@ == s.control && g.control@ == t.control);
    assert forall|i: int| 0 <= i < w.len() implies #[trigger] stands_for(
        plan.imported,
        w,
        f,
        g,
        i,
    ) by {
        assert(laid_out(plan.imported, w, f.ops@, g.ops@, i));
        assert(treated_alike(ops[i], f.ops@[i], plan.globals));
        lemma_begin(w, i, w.len() as int);
        if let Some(width) = w.before[i] {
            lemma_keeps(plan, ops, w, i, width);
            assert(t.control[w.paid(i) + 3] == fix_control(w.paid(i)));
            assert(fixes_at(g, width, w.scratch(width), w.paid(i)));
        }
        if let Some(width) = w.after[i] {
            lemma_keeps(plan, ops, w, i, width);
            assert(t.control[w.moved(i) + 4] == fix_control(w.moved(i) + 1));
            assert(fixes_at(g, width, w.scratch(width), w.moved(i) + 1));
        }
        lemma_control(plan, ops, w, f, g, s.control, t.control, i);
    }
    reveal(woven);
}

proof fn lemma_control(
    plan: Plan,
    ops: Seq<Operator>,
    w: Weave,
    f: Function,
    g: Function,
    s: Seq<Option<Control>>,
    t: Seq<Option<Control>>,
    i: int,
)
    requires
        instruments(plan, ops, w, f, g),
        f.control@ == s,
        g.control@ == t,
        g.ops@.len() == w.begin(w.len() as int),
        plain_follows(w, ops.len() as int, s, t),
        0 <= i < ops.len(),
    ensures
        control_moved(w, f.control@[i], g.control@[w.moved(i)]),
        f.control@.len() == f.ops@.len(),
        g.control@.len() == g.ops@.len(),
{
    lemma_begin(w, 0, w.len() as int);
    lemma_begin(w, i, w.len() as int);
    law_constructs_nest(f.ops@, i, i);
    law_constructs_nest(g.ops@, 0, 0);
    assert(t[w.moved(i)] == moved_control(w, s[i]));
    if let Some(c) = s[i] {
        let end = c.end as int;
        assert(treated_alike(ops[end], f.ops@[end], plan.globals));
        lemma_bare(plan, ops, w, end);
        lemma_begin(w, end, w.len() as int);
        if let Some(x) = c.otherwise {
            let x = x as int;
            assert(treated_alike(ops[x], f.ops@[x], plan.globals));
            lemma_bare(plan, ops, w, x);
            lemma_begin(w, x, w.len() as int);
        }
    }
}

/// What decides how a body is rewritten, once its scratch locals are placed.
pub open spec fn plan_of(f: Facts, config: Config, index: nat, b: BodyView) -> Plan {
    let ops = b.code->Ok_0.ops;
    let f32s = needs_scratch(config, ops, f.globals, FloatWidth::F32);
    let (scratch_f32, scratch_f64) = scratch_locals(
        params_at(f, index)->Ok_0,
        declared_locals(b.locals.0, b.locals.0.len()),
        f32s,
    )->Ok_0;
    Plan { config, imported: clamped(f.imported), globals: f.globals, scratch_f32, scratch_f64 }
}

/// What rewriting a body weaves into it.
pub open spec fn weave_of_body(f: Facts, config: Config, index: nat, b: BodyView) -> Weave {
    let plan = plan_of(f, config, index, b);
    let ops = b.code->Ok_0.ops;
    weave_for(
        plan,
        ops,
        params_at(f, index)->Ok_0 as nat + declared_locals(b.locals.0, b.locals.0.len()),
        added_locals(
            needs_scratch(config, ops, f.globals, FloatWidth::F32),
            needs_scratch(config, ops, f.globals, FloatWidth::F64),
        ).len(),
    )
}

/// Is an instruction another one, with a reference to a function remapped?
pub open spec fn renumbers(op: Operator, imported: u32, other: Operator) -> bool {
    match op {
        Operator::Call { function_index } => function_index < u32::MAX && other == (
        Operator::Call { function_index: shifted(function_index, imported) }),
        Operator::ReturnCall { .. } => other is ReturnCall,
        Operator::RefFunc { .. } => other is RefFunc,
        _ => same_operator(op, other),
    }
}

/// Are a plain function and an instrumented one what their bodies, written with nothing added and
/// with what rewriting adds, read as?
pub open spec fn reads_written(
    facts: Facts,
    config: Config,
    index: nat,
    b: BodyView,
    f: Function,
    g: Function,
) -> bool {
    let plan = plan_of(facts, config, index, b);
    let w = weave_of_body(facts, config, index, b);
    let ops = b.code->Ok_0.ops;
    &&& f.ops@.len() == ops.len()
    &&& forall|i: int|
        0 <= i < ops.len() ==> renumbers(ops[i], plan.imported, #[trigger] f.ops@[i])
    &&& read_back(plan.emitted(ops, ops.len()), f.ops@, g.ops@)
    &&& g.ops@.len() < u32::MAX
    &&& resolved(f.ops@) == Some(f.control@)
    &&& resolved(g.ops@) == Some(g.control@)
    &&& g.local_types@.len() == f.local_types@.len() + w.more
    &&& forall|k: int|
        0 <= k < f.local_types@.len() ==> (#[trigger] f.local_types@[k]).deep_view()
            == g.local_types@[k].deep_view()
}

/// Rewriting a body instruments its function: if what is written is read back, and no instruction
/// names a local that there is not, the function read from it is the one read from the body with
/// nothing added, instrumented by the plan that rewriting follows. The code that is written is
/// what that plan emits.
pub proof fn law_rewriting_instruments(
    facts: Facts,
    config: Config,
    index: nat,
    b: BodyView,
    written: Seq<Seq<u8>>,
    f: Function,
    g: Function,
)
    requires
        code_rewritten(facts, config, index, b, Ok(written)) is Ok,
        reads_written(facts, config, index, b, f, g),
        forall|i: int|
            0 <= i < f.ops@.len() ==> names_locals(
                #[trigger] f.ops@[i],
                weave_of_body(facts, config, index, b).locals,
            ),
    ensures
        ({
            let plan = plan_of(facts, config, index, b);
            let ops = b.code->Ok_0.ops;
            &&& instruments(plan, ops, weave_of_body(facts, config, index, b), f, g)
            &&& code_rewritten(facts, config, index, b, Ok(written)) == Ok::<_, ErrorView>(
                (
                    added_locals(
                        needs_scratch(config, ops, facts.globals, FloatWidth::F32),
                        needs_scratch(config, ops, facts.globals, FloatWidth::F64),
                    ),
                    code_bytes(plan.emitted(ops, ops.len()), ops, written, plan.imported),
                ),
            )
        }),
{
    let plan = plan_of(facts, config, index, b);
    let w = weave_of_body(facts, config, index, b);
    let ops = b.code->Ok_0.ops;
    assert(has_scratch(plan, ops, w));
    assert forall|i: int| 0 <= i < ops.len() implies treated_alike(
        ops[i],
        #[trigger] f.ops@[i],
        plan.globals,
    ) && f.ops@[i] != (Operator::Call { function_index: plan.imported }) by {
        assert(renumbers(ops[i], plan.imported, f.ops@[i]));
        if let Operator::Call { function_index } = ops[i] {
            law_functions_stay_apart(function_index, function_index, plan.imported);
        }
    }
}

/// A module and the same with its functions instrumented.
pub struct Instrumented {
    /// What decides how each function is rewritten.
    pub plans: Seq<Plan>,
    /// What is woven into each.
    pub weaves: Seq<Weave>,
    /// The module.
    pub image: Image,
}

impl Instrumented {
    /// Is the module what the pass writes for a plain one, read back? Each function's
    /// instructions are known as they were before references to functions were remapped.
    pub open spec fn of(self, config: Config, codes: Seq<Seq<Operator>>, plain: Image) -> bool {
        let n = plain.functions@.len();
        &&& same_but_code(plain, self.image)
        &&& n == self.image.functions@.len() == self.plans.len() == self.weaves.len() == codes.len()
        &&& forall|p: int|
            0 <= p < n ==> self.plans[p].config == config && self.plans[p].imported == plain.charge
                && #[trigger] instruments(
                self.plans[p],
                codes[p],
                self.weaves[p],
                plain.functions@[p],
                self.image.functions@[p],
            )
        &&& counts_locals(self.weaves, plain)
        &&& table_of(plain) matches Ok(t) ==> forall|i: int|
            0 <= i < t.len() ==> #[trigger] t[i] != Some(plain.charge)
    }
}

proof fn lemma_instrumented(
    x: Instrumented,
    config: Config,
    codes: Seq<Seq<Operator>>,
    plain: Image,
)
    requires
        x.of(config, codes, plain),
    ensures
        weaves(x.weaves, plain, x.image),
{
    assert forall|p: int| 0 <= p < x.weaves.len() implies #[trigger] woven(
        plain.charge,
        x.weaves[p],
        plain.functions@[p],
        x.image.functions@[p],
    ) by {
        assert(instruments(
            x.plans[p],
            codes[p],
            x.weaves[p],
            plain.functions@[p],
            x.image.functions@[p],
        ));
        law_instrumenting_weaves(
            x.plans[p],
            codes[p],
            x.weaves[p],
            plain.functions@[p],
            x.image.functions@[p],
        );
    }
}

/// It makes no difference whether a module is canonicalized everywhere or where values escape:
/// on every input where a run of the one ends, so does that of the other, with the same answer
/// and the same fuel spent, or with the same trap.
pub proof fn law_both_ways_of_canonicalizing_agree(
    x: Instrumented,
    y: Instrumented,
    here: Config,
    there: Config,
    codes: Seq<Seq<Operator>>,
    plain: Image,
    input: Seq<u8>,
    limits: Limits,
    instructions: nat,
    e: Ending,
) -> (k: nat)
    requires
        x.of(here, codes, plain),
        y.of(there, codes, plain),
        here.meter_fuel == there.meter_fuel,
        !(here.canonicalize is Never),
        !(there.canonicalize is Never),
        forall|p: int|
            0 <= p < x.plans.len() ==> (#[trigger] x.plans[p]).globals == y.plans[p].globals,
        started(x.image, input, limits) is Ok,
        ends(started(x.image, input, limits)->Ok_0, instructions, e),
    ensures
        started(y.image, input, limits) is Ok,
        ends(started(y.image, input, limits)->Ok_0, k, e),
        e is Answered ==> started(y.image, input, limits)->Ok_0.after(k)->0.meter == started(
            x.image,
            input,
            limits,
        )->Ok_0.after(instructions)->0.meter,
{
    lemma_instrumented(x, here, codes, plain);
    lemma_instrumented(y, there, codes, plain);
    let (w, v) = (x.weaves, y.weaves);
    assert forall|p: int| 0 <= p < w.len() implies (#[trigger] w[p]).amounts == v[p].amounts
        && w[p].before == v[p].before by {
        let (f, g, h) = (
            plain.functions@[p],
            x.image.functions@[p],
            y.image.functions@[p],
        );
        assert(instruments(x.plans[p], codes[p], w[p], f, g));
        assert(instruments(y.plans[p], codes[p], v[p], f, h));
        assert(x.plans[p].globals == y.plans[p].globals);
        assert(w[p].amounts =~= v[p].amounts);
        assert(w[p].before =~= v[p].before);
    }
    law_canonicalizations_agree(
        w,
        v,
        plain,
        x.image,
        y.image,
        input,
        limits,
        instructions,
        e,
    )
}

proof fn lemma_pays_nothing(
    x: Instrumented,
    y: Instrumented,
    config: Config,
    codes: Seq<Seq<Operator>>,
    plain: Image,
)
    requires
        x.of(Config { meter_fuel: true, ..config }, codes, plain),
        y.of(Config { meter_fuel: false, ..config }, codes, plain),
        forall|p: int|
            0 <= p < x.plans.len() ==> (#[trigger] x.plans[p]).globals == y.plans[p].globals,
    ensures
        pays_nothing(x.weaves, y.weaves),
{
    let (w, v) = (x.weaves, y.weaves);
    assert forall|p: int| 0 <= p < w.len() implies (#[trigger] v[p]).before == w[p].before
        && v[p].len() == w[p].len() by {
        let (f, g, h) = (
            plain.functions@[p],
            x.image.functions@[p],
            y.image.functions@[p],
        );
        assert(instruments(x.plans[p], codes[p], w[p], f, g));
        assert(instruments(y.plans[p], codes[p], v[p], f, h));
        assert(x.plans[p].globals == y.plans[p].globals);
        assert(w[p].before =~= v[p].before);
    }
    assert forall|p: int, i: int| 0 <= p < w.len() && 0 <= i < v[p].len() implies (
    #[trigger] v[p].amounts[i]) == 0 by {
        assert(instruments(
            y.plans[p],
            codes[p],
            v[p],
            plain.functions@[p],
            y.image.functions@[p],
        ));
    }
}

/// A module that is metered and the same without metering give the same answers and end in the
/// same traps, unless the fuel of the one is spent first.
pub proof fn law_metered_and_unmetered_modules_agree(
    x: Instrumented,
    y: Instrumented,
    config: Config,
    codes: Seq<Seq<Operator>>,
    plain: Image,
    input: Seq<u8>,
    limits: Limits,
    instructions: nat,
    e: Ending,
) -> (k: nat)
    requires
        x.of(Config { meter_fuel: true, ..config }, codes, plain),
        y.of(Config { meter_fuel: false, ..config }, codes, plain),
        forall|p: int|
            0 <= p < x.plans.len() ==> (#[trigger] x.plans[p]).globals == y.plans[p].globals,
        started(y.image, input, limits) is Ok,
        ends(started(y.image, input, limits)->Ok_0, instructions, e),
    ensures
        started(x.image, input, limits) is Ok,
        ends(started(x.image, input, limits)->Ok_0, k, e) || ends(
            started(x.image, input, limits)->Ok_0,
            k,
            Ending::Trapped(TrapView::OutOfFuel),
        ),
{
    lemma_instrumented(x, Config { meter_fuel: true, ..config }, codes, plain);
    lemma_instrumented(y, Config { meter_fuel: false, ..config }, codes, plain);
    lemma_pays_nothing(x, y, config, codes, plain);
    law_metering_does_not_change_the_answer(
        x.weaves,
        y.weaves,
        plain,
        x.image,
        y.image,
        input,
        limits,
        instructions,
        e,
    )
}

/// A NaN's payload cannot change the answer of a module that is canonicalized, everywhere or where
/// values escape: whichever NaNs an engine leaves where it may choose, a run that ends with some
/// choices ends with any other in the same trap, or with the same output, the same memory and the
/// same globals of floating-point numbers.
pub proof fn law_a_canonicalized_module_hides_payloads(
    x: Instrumented,
    config: Config,
    codes: Seq<Seq<Operator>>,
    plain: Image,
    widths: Seq<Option<FloatWidth>>,
    input: Seq<u8>,
    limits: Limits,
    one: spec_fn(nat) -> Value,
    other: spec_fn(nat) -> Value,
    instructions: nat,
    e: Ending,
) -> (r: (nat, Ending))
    requires
        x.of(config, codes, plain),
        !(config.canonicalize is Never),
        forall|p: int| 0 <= p < x.plans.len() ==> (#[trigger] x.plans[p]).globals == widths,
        started(x.image, input, limits) is Ok,
        ends_with(one, 0, started(x.image, input, limits)->Ok_0, instructions, e),
    ensures
        ends_with(other, 0, started(x.image, input, limits)->Ok_0, r.0, r.1),
        endings_alike(widths, e, r.1),
{
    lemma_instrumented(x, config, codes, plain);
    let w = x.weaves;
    assert forall|p: int, i: int| 0 <= p < w.len() && 0 <= i < w[p].len() implies (
    #[trigger] w[p].before[i]) == escaping(plain.functions@[p].ops@[i], widths) by {
        let (f, g) = (plain.functions@[p], x.image.functions@[p]);
        assert(instruments(x.plans[p], codes[p], w[p], f, g));
        assert(x.plans[p].globals == widths);
        assert(treated_alike(codes[p][i], f.ops@[i], widths));
    }
    law_payloads_do_not_change_the_answer(
        w,
        widths,
        plain,
        x.image,
        input,
        limits,
        one,
        other,
        instructions,
        e,
    )
}

proof fn lemma_runs_alike(config: Config, a: Seq<Operator>, b: Seq<Operator>, i: int)
    requires
        a.len() == b.len(),
        0 <= i <= a.len(),
        forall|k: int| 0 <= k < a.len() ==> is_boundary(a[k]) == is_boundary(#[trigger] b[k]),
    ensures
        run_length(a, i) == run_length(b, i),
        charged_at(config, a, i) == charged_at(config, b, i),
    decreases a.len() - i,
{
    if i < a.len() {
        lemma_runs_alike(config, a, b, i + 1);
        assert(is_boundary(a[i]) == is_boundary(b[i]));
    }
    if i > 0 {
        assert(is_boundary(a[i - 1]) == is_boundary(b[i - 1]));
    }
}

/// Fuel is the instructions executed: an execution of a metered module that ends with an answer has
/// consumed as much fuel as the module without what the pass added executes instructions, less one
/// for each `else`, which goes to an `end` that is not charged.
pub proof fn law_metered_fuel_is_the_instructions_executed(
    x: Instrumented,
    config: Config,
    codes: Seq<Seq<Operator>>,
    plain: Image,
    input: Seq<u8>,
    limits: Limits,
    instructions: nat,
    e: Ending,
) -> (n: nat)
    requires
        x.of(config, codes, plain),
        config.meter_fuel,
        forall|p: int|
            0 <= p < plain.functions@.len() ==> (#[trigger] plain.functions@[p]).ops@.len()
                < u32::MAX,
        forall|p: int, i: int|
            0 <= p < codes.len() && 0 <= i < codes[p].len() ==> renumbers(
                codes[p][i],
                plain.charge,
                #[trigger] plain.functions@[p].ops@[i],
            ),
        started(x.image, input, limits) is Ok,
        ends(started(x.image, input, limits)->Ok_0, instructions, e),
        e is Answered,
    ensures
        started(plain, input, limits) is Ok,
        guarded_ends(x.weaves, started(plain, input, limits)->Ok_0, false, n, e),
        started(x.image, input, limits)->Ok_0.after(instructions)->0.meter.consumed + elses(
            x.weaves,
            started(plain, input, limits)->Ok_0,
            false,
            n,
        ) == n,
{
    lemma_instrumented(x, config, codes, plain);
    let w = x.weaves;
    assert forall|p: int| 0 <= p < plain.functions@.len() implies is_resolved(
        #[trigger] plain.functions@[p],
    ) by {
        assert(instruments(
            x.plans[p],
            codes[p],
            w[p],
            plain.functions@[p],
            x.image.functions@[p],
        ));
    }
    assert forall|p: int, i: int| 0 <= p < w.len() && 0 <= i < w[p].len() implies (
    #[trigger] w[p].amounts[i]) == charged_at(config, plain.functions@[p].ops@, i) by {
        let (ops, f) = (codes[p], plain.functions@[p]);
        assert(instruments(x.plans[p], ops, w[p], f, x.image.functions@[p]));
        assert forall|k: int| 0 <= k < ops.len() implies is_boundary(ops[k]) == is_boundary(
            #[trigger] f.ops@[k],
        ) by {
            assert(renumbers(codes[p][k], plain.charge, plain.functions@[p].ops@[k]));
        }
        lemma_runs_alike(config, ops, f.ops@, i);
    }
    law_fuel_is_the_instructions_executed(w, config, plain, x.image, input, limits, instructions, e)
}

} // verus!
