use vstd::prelude::*;

use crate::arith::{lcm, lcm_usize, lemma_divisor_of_lcm, lemma_lcm_multiple};
use crate::cbms::{
    ChannelCommand, MeasureCommandSet, CBMS, prefix_sum, lemma_prefix_sum_extend,
    lemma_prefix_sum_mono,
};

verus! {

/// One channel line of a chart: its measure, its channel and the half-open
/// range of its values in the flat value array.
#[derive(Clone, Copy, Debug)]
pub struct ChannelCommandSet {
    pub measure: u32,
    pub channel: u32,
    pub args_idx: (usize, usize),
}

/// Number of values a command set carries.
pub open spec fn arg_count(s: ChannelCommandSet) -> nat {
    (s.args_idx.1 - s.args_idx.0) as nat
}

/// The command sets of measure `m`, in input order.
pub open spec fn group(sets: Seq<ChannelCommandSet>, m: u32) -> Seq<ChannelCommandSet>
    decreases sets.len(),
{
    if sets.len() == 0 {
        Seq::empty()
    } else {
        let g = group(sets.drop_last(), m);
        if sets.last().measure == m {
            g.push(sets.last())
        } else {
            g
        }
    }
}

/// Number of uniform slots of a measure: the least common multiple of the
/// non-zero argument counts, zero when there are none.
pub open spec fn slot_count(g: Seq<ChannelCommandSet>) -> nat
    decreases g.len(),
{
    if g.len() == 0 {
        0
    } else {
        let l = slot_count(g.drop_last());
        let c = arg_count(g.last());
        if c == 0 {
            l
        } else if l == 0 {
            c
        } else {
            lcm(l, c)
        }
    }
}

/// The commands placed in slot `i` of a measure with `l` slots: one for each
/// set whose subdivision has a point there, in input order.
pub open spec fn slot_cmds(g: Seq<ChannelCommandSet>, args: Seq<u32>, l: nat, i: nat) -> Seq<
    ChannelCommand,
>
    decreases g.len(),
{
    if g.len() == 0 {
        Seq::empty()
    } else {
        let prev = slot_cmds(g.drop_last(), args, l, i);
        let s = g.last();
        let c = arg_count(s);
        if c > 0 && i % (l / c) == 0 {
            prev.push(
                ChannelCommand { channel: s.channel, value: args[s.args_idx.0 + (i * c / l) as int] },
            )
        } else {
            prev
        }
    }
}

/// The commands of the first `n` slots of a measure, slot after slot.
pub open spec fn measure_cmds(g: Seq<ChannelCommandSet>, args: Seq<u32>, l: nat, n: nat) -> Seq<
    ChannelCommand,
>
    decreases n,
{
    if n == 0 {
        Seq::empty()
    } else {
        measure_cmds(g, args, l, (n - 1) as nat) + slot_cmds(g, args, l, (n - 1) as nat)
    }
}

/// The slot sizes of a measure with `l` slots.
pub open spec fn measure_cnts(g: Seq<ChannelCommandSet>, args: Seq<u32>, l: nat) -> Seq<usize> {
    Seq::new(l, |i: int| slot_cmds(g, args, l, i as nat).len() as usize)
}

/// Every set's value range lies inside the value array.
pub open spec fn sets_in_bounds(sets: Seq<ChannelCommandSet>, args_len: nat) -> bool {
    forall|i: int|
        #![trigger sets[i]]
        0 <= i < sets.len() ==> sets[i].args_idx.0 <= sets[i].args_idx.1 <= args_len
}

proof fn lemma_group_in_bounds(sets: Seq<ChannelCommandSet>, m: u32, args_len: nat)
    requires
        sets_in_bounds(sets, args_len),
    ensures
        sets_in_bounds(group(sets, m), args_len),
    decreases sets.len(),
{
    if sets.len() > 0 {
        lemma_group_in_bounds(sets.drop_last(), m, args_len);
    }
}

/// Every non-zero argument count divides the slot count, and the slot count
/// of a prefix never exceeds that of the whole.
proof fn lemma_slot_count(g: Seq<ChannelCommandSet>)
    ensures
        forall|i: int|
            #![trigger g[i]]
            0 <= i < g.len() && arg_count(g[i]) > 0 ==> slot_count(g) > 0 && slot_count(g)
                % arg_count(g[i]) == 0,
        forall|t: int| 0 <= t <= g.len() ==> slot_count(#[trigger] g.take(t)) <= slot_count(g),
    decreases g.len(),
{
    if g.len() > 0 {
        let p = g.drop_last();
        lemma_slot_count(p);
        let l = slot_count(p);
        let c = arg_count(g.last());
        if c > 0 && l > 0 {
            lemma_lcm_multiple(l, c);
        }
        assert forall|i: int|
            #![trigger g[i]]
            0 <= i < g.len() && arg_count(g[i]) > 0 implies slot_count(g) > 0 && slot_count(g)
                % arg_count(g[i]) == 0 by {
            if i == g.len() - 1 {
                if l == 0 {
                    vstd::arithmetic::div_mod::lemma_mod_self_0(c as int);
                }
            } else {
                assert(p[i] == g[i]);
                if c > 0 {
                    lemma_divisor_of_lcm(arg_count(g[i]), l, c);
                }
            }
        }
        assert forall|t: int| 0 <= t <= g.len() implies slot_count(#[trigger] g.take(t))
            <= slot_count(g) by {
            if t < g.len() {
                assert(g.take(t) == p.take(t));
            } else {
                assert(g.take(t) == g);
            }
        }
    }
}

/// The number of slots of a group, computed left to right with lcm.
fn compute_slot_count(g: &Vec<ChannelCommandSet>) -> (l: usize)
    requires
        sets_in_bounds(g@, usize::MAX as nat),
        slot_count(g@) <= usize::MAX,
    ensures
        l as nat == slot_count(g@),
{
    proof {
        lemma_slot_count(g@);
    }
    let mut l: usize = 0;
    let mut t: usize = 0;
    while t < g.len()
        invariant
            t <= g@.len(),
            sets_in_bounds(g@, usize::MAX as nat),
            slot_count(g@) <= usize::MAX,
            forall|t: int| 0 <= t <= g@.len() ==> slot_count(#[trigger] g@.take(t)) <= slot_count(g@),
            l as nat == slot_count(g@.take(t as int)),
        decreases g.len() - t,
    {
        let s = g[t];
        let c = s.args_idx.1 - s.args_idx.0;
        proof {
            assert(g@.take(t + 1).drop_last() == g@.take(t as int));
            assert(g@.take(t + 1).last() == s);
        }
        if c != 0 {
            if l == 0 {
                l = c;
            } else {
                l = lcm_usize(l, c);
            }
        }
        t += 1;
    }
    assert(g@.take(t as int) == g@);
    l
}

/// The command sets of measure `m`, in input order.
fn collect_group(sets: &Vec<ChannelCommandSet>, m: u32) -> (g: Vec<ChannelCommandSet>)
    ensures
        g@ == group(sets@, m),
{
    let mut g: Vec<ChannelCommandSet> = Vec::new();
    let mut i: usize = 0;
    while i < sets.len()
        invariant
            i <= sets@.len(),
            g@ == group(sets@.take(i as int), m),
        decreases sets.len() - i,
    {
        proof {
            assert(sets@.take(i + 1).drop_last() == sets@.take(i as int));
            assert(sets@.take(i + 1).last() == sets@[i as int]);
        }
        if sets[i].measure == m {
            g.push(sets[i]);
        }
        i += 1;
    }
    assert(sets@.take(i as int) == sets@);
    g
}

/// With `c` dividing `l`, the value index `i * c / l` of slot `i` is
/// `i / (l / c)`, and lies below `c`.
proof fn lemma_value_index(i: nat, c: nat, l: nat)
    requires
        c > 0,
        i < l,
        l % c == 0,
    ensures
        l / c > 0,
        i / (l / c) == i * c / l,
        i / (l / c) < c,
{
    let d = l / c;
    vstd::arithmetic::div_mod::lemma_fundamental_div_mod(l as int, c as int);
    assert(l == d * c);
    assert(d > 0) by (nonlinear_arith)
        requires
            l == d * c,
            i < l,
    ;
    vstd::arithmetic::div_mod::lemma_fundamental_div_mod(i as int, d as int);
    let q = i / d;
    let r = i % d;
    assert(i * c == q * l + r * c && 0 <= r * c < l) by (nonlinear_arith)
        requires
            i == d * q + r,
            l == d * c,
            0 <= r < d,
            c > 0,
    ;
    vstd::arithmetic::div_mod::lemma_fundamental_div_mod_converse_div(
        (i * c) as int,
        l as int,
        q as int,
        (r * c) as int,
    );
    assert(q < c) by (nonlinear_arith)
        requires
            i == d * q + r,
            l == d * c,
            0 <= r < d,
            i < l,
    ;
}

/// Appends the commands of slot `i` and returns how many there were.
fn compile_slot(
    g: &Vec<ChannelCommandSet>,
    args: &Vec<u32>,
    l: usize,
    i: usize,
    commands: &mut Vec<ChannelCommand>,
) -> (cnt: usize)
    requires
        sets_in_bounds(g@, args@.len()),
        l as nat == slot_count(g@),
        i < l,
    ensures
        final(commands)@ == old(commands)@ + slot_cmds(g@, args@, l as nat, i as nat),
        cnt == slot_cmds(g@, args@, l as nat, i as nat).len(),
{
    proof {
        lemma_slot_count(g@);
    }
    let mut cnt: usize = 0;
    let mut t: usize = 0;
    while t < g.len()
        invariant
            t <= g@.len(),
            sets_in_bounds(g@, args@.len()),
            l as nat == slot_count(g@),
            i < l,
            forall|k: int|
                #![trigger g@[k]]
                0 <= k < g@.len() && arg_count(g@[k]) > 0 ==> slot_count(g@) > 0 && slot_count(g@)
                    % arg_count(g@[k]) == 0,
            commands@ == old(commands)@ + slot_cmds(g@.take(t as int), args@, l as nat, i as nat),
            cnt == slot_cmds(g@.take(t as int), args@, l as nat, i as nat).len(),
            cnt <= t,
        decreases g.len() - t,
    {
        let s = g[t];
        let c = s.args_idx.1 - s.args_idx.0;
        proof {
            assert(g@.take(t + 1).drop_last() == g@.take(t as int));
            assert(g@.take(t + 1).last() == s);
            assert(s == g@[t as int]);
        }
        if c != 0 {
            proof {
                lemma_value_index(i as nat, c as nat, l as nat);
            }
            let d = l / c;
            if i % d == 0 {
                let v = args[s.args_idx.0 + i / d];
                commands.push(ChannelCommand { channel: s.channel, value: v });
                cnt += 1;
            }
        }
        t += 1;
    }
    assert(g@.take(t as int) == g@);
    cnt
}

/// Appends the slot sizes and the commands of one measure with `l` slots.
fn compile_measure(
    g: &Vec<ChannelCommandSet>,
    args: &Vec<u32>,
    l: usize,
    command_cnt: &mut Vec<usize>,
    commands: &mut Vec<ChannelCommand>,
)
    requires
        sets_in_bounds(g@, args@.len()),
        l as nat == slot_count(g@),
        prefix_sum(old(command_cnt)@, old(command_cnt)@.len() as int) == old(commands)@.len(),
    ensures
        final(command_cnt)@ == old(command_cnt)@ + measure_cnts(g@, args@, l as nat),
        final(commands)@ == old(commands)@ + measure_cmds(g@, args@, l as nat, l as nat),
        prefix_sum(final(command_cnt)@, final(command_cnt)@.len() as int)
            == final(commands)@.len(),
        forall|k: int|
            0 <= k <= old(command_cnt)@.len() ==> #[trigger] prefix_sum(final(command_cnt)@, k)
                == prefix_sum(old(command_cnt)@, k),
{
    let ghost cc0 = command_cnt@;
    let ghost cm0 = commands@;
    let ghost cnts = measure_cnts(g@, args@, l as nat);
    let mut i: usize = 0;
    while i < l
        invariant
            i <= l,
            sets_in_bounds(g@, args@.len()),
            l as nat == slot_count(g@),
            cnts == measure_cnts(g@, args@, l as nat),
            command_cnt@ == cc0 + cnts.take(i as int),
            commands@ == cm0 + measure_cmds(g@, args@, l as nat, i as nat),
            prefix_sum(command_cnt@, command_cnt@.len() as int) == commands@.len(),
            forall|k: int|
                0 <= k <= cc0.len() ==> #[trigger] prefix_sum(command_cnt@, k) == prefix_sum(
                    cc0,
                    k,
                ),
        decreases l - i,
    {
        let ghost before = command_cnt@;
        let cnt = compile_slot(g, args, l, i, commands);
        command_cnt.push(cnt);
        proof {
            assert(cnts.take(i + 1) == cnts.take(i as int).push(cnt));
            assert(command_cnt@ == before + seq![cnt]);
            assert forall|k: int| 0 <= k <= cc0.len() implies #[trigger] prefix_sum(command_cnt@, k)
                == prefix_sum(cc0, k) by {
                lemma_prefix_sum_extend(before, seq![cnt], k);
            }
            lemma_prefix_sum_extend(before, seq![cnt], before.len() as int);
            assert(command_cnt@[before.len() as int] == cnt);
            assert(measure_cmds(g@, args@, l as nat, (i + 1) as nat) == measure_cmds(
                g@,
                args@,
                l as nat,
                i as nat,
            ) + slot_cmds(g@, args@, l as nat, i as nat));
        }
        i += 1;
    }
    assert(cnts.take(l as int) == cnts);
}

/// Region `k` of `out` holds exactly the compiled slots of its measure.
pub open spec fn compiled_measure(
    sets: Seq<ChannelCommandSet>,
    args: Seq<u32>,
    out: &CBMS,
    k: int,
) -> bool {
    let ms = out.measure_sets@[k];
    let g = group(sets, ms.measure);
    let l = slot_count(g);
    &&& ms.command_cnt_idx.1 - ms.command_cnt_idx.0 == l
    &&& out.command_cnt@.subrange(ms.command_cnt_idx.0 as int, ms.command_cnt_idx.1 as int)
        == measure_cnts(g, args, l)
    &&& out.commands@.subrange(ms.commands_idx.0 as int, ms.commands_idx.1 as int) == measure_cmds(
        g,
        args,
        l,
        l,
    )
}

/// `out` is the compiled form of `sets` over the value array `args`: a
/// well-formed store whose regions are, in ascending measure order, exactly
/// the measures that get at least one slot, each holding its compiled slots.
pub open spec fn compiled_from(out: &CBMS, sets: Seq<ChannelCommandSet>, args: Seq<u32>) -> bool {
    &&& out.wf()
    &&& forall|k: int|
        0 <= k < out.measure_sets@.len() ==> #[trigger] compiled_measure(sets, args, out, k)
    &&& forall|i: int|
        #![trigger sets[i]]
        0 <= i < sets.len() && slot_count(group(sets, sets[i].measure)) > 0 ==> exists|k: int|
            0 <= k < out.measure_sets@.len() && #[trigger] out.measure_sets@[k].measure
                == sets[i].measure
}

/// The smallest measure of the sets that is at least `lo`, if any.
fn next_measure(sets: &Vec<ChannelCommandSet>, lo: u64) -> (r: Option<u32>)
    ensures
        r matches Some(m) ==> m >= lo && (exists|i: int|
            0 <= i < sets@.len() && #[trigger] sets@[i].measure == m) && forall|i: int|
            0 <= i < sets@.len() && #[trigger] sets@[i].measure >= lo ==> sets@[i].measure >= m,
        r is None ==> forall|i: int| 0 <= i < sets@.len() ==> #[trigger] sets@[i].measure < lo,
{
    let mut best: Option<u32> = None;
    let mut i: usize = 0;
    while i < sets.len()
        invariant
            i <= sets@.len(),
            best matches Some(m) ==> m >= lo && (exists|j: int|
                0 <= j < i && #[trigger] sets@[j].measure == m) && forall|j: int|
                0 <= j < i && #[trigger] sets@[j].measure >= lo ==> sets@[j].measure >= m,
            best is None ==> forall|j: int| 0 <= j < i ==> #[trigger] sets@[j].measure < lo,
        decreases sets.len() - i,
    {
        let m = sets[i].measure;
        if m as u64 >= lo {
            match best {
                None => {
                    best = Some(m);
                },
                Some(b) => {
                    if m < b {
                        best = Some(m);
                    }
                },
            }
        }
        i += 1;
    }
    best
}

/// Compiles channel command sets over the flat value array `args` into a
/// store: measures in ascending order, each quantized onto the least common
/// multiple of its sets' argument counts; measures with no slot are omitted.
pub fn compile(sets: &Vec<ChannelCommandSet>, args: &Vec<u32>) -> (out: CBMS)
    requires
        sets_in_bounds(sets@, args@.len()),
        forall|i: int|
            0 <= i < sets@.len() ==> slot_count(group(sets@, #[trigger] sets@[i].measure))
                <= usize::MAX,
        forall|i: int| 0 <= i < sets@.len() ==> (#[trigger] sets@[i].measure as int) < usize::MAX,
    ensures
        compiled_from(&out, sets@, args@),
{
    let mut out = CBMS::new();
    let mut lo: u64 = 0;
    loop
        invariant
            sets_in_bounds(sets@, args@.len()),
            forall|i: int|
                0 <= i < sets@.len() ==> slot_count(group(sets@, #[trigger] sets@[i].measure))
                    <= usize::MAX,
            forall|i: int|
                0 <= i < sets@.len() ==> (#[trigger] sets@[i].measure as int) < usize::MAX,
            lo <= u32::MAX as u64 + 1,
            out.wf(),
            forall|k: int|
                0 <= k < out.measure_sets@.len() ==> #[trigger] compiled_measure(
                    sets@,
                    args@,
                    &out,
                    k,
                ),
            forall|k: int|
                0 <= k < out.measure_sets@.len() ==> (#[trigger] out.measure_sets@[k].measure as u64)
                    < lo,
            forall|i: int|
                #![trigger sets@[i]]
                0 <= i < sets@.len() && sets@[i].measure < lo && slot_count(
                    group(sets@, sets@[i].measure),
                ) > 0 ==> exists|k: int|
                    0 <= k < out.measure_sets@.len() && #[trigger] out.measure_sets@[k].measure
                        == sets@[i].measure,
        ensures
            forall|i: int| 0 <= i < sets@.len() ==> (#[trigger] sets@[i].measure as u64) < lo,
        decreases u32::MAX as u64 + 1 - lo,
    {
        let found = next_measure(sets, lo);
        let m = match found {
            None => {
                break ;
            },
            Some(m) => m,
        };
        let g = collect_group(sets, m);
        proof {
            lemma_group_in_bounds(sets@, m, args@.len());
            lemma_group_in_bounds(sets@, m, usize::MAX as nat);
            let w = choose|i: int| 0 <= i < sets@.len() && #[trigger] sets@[i].measure == m;
            assert(sets@[w].measure == m);
        }
        let l = compute_slot_count(&g);
        let ghost pre = out;
        if l > 0 {
            let ghost old_out = out;
            let cc_start = out.command_cnt.len();
            let cmd_start = out.commands.len();
            compile_measure(&g, args, l, &mut out.command_cnt, &mut out.commands);
            let set = MeasureCommandSet {
                measure: m,
                command_cnt_idx: (cc_start, out.command_cnt.len()),
                commands_idx: (cmd_start, out.commands.len()),
            };
            out.measure_sets.push(set);
            proof {
                let ms = out.measure_sets@;
                let n = old_out.measure_sets@.len();
                assert(ms[n as int] == set);
                assert forall|k: int| 0 <= k < n implies ms[k] == old_out.measure_sets@[k] by {}
                assert forall|k: int| 0 <= k < ms.len() implies #[trigger] compiled_measure(
                    sets@,
                    args@,
                    &out,
                    k,
                ) by {
                    if k < n {
                        assert(compiled_measure(sets@, args@, &old_out, k));
                        let r = ms[k];
                        assert(r == old_out.measure_sets@[k]);
                        lemma_prefix_sum_mono(
                            old_out.command_cnt@,
                            r.command_cnt_idx.1 as int,
                            old_out.command_cnt@.len() as int,
                        );
                        lemma_prefix_sum_mono(
                            old_out.command_cnt@,
                            r.command_cnt_idx.0 as int,
                            r.command_cnt_idx.1 as int,
                        );
                        assert(out.command_cnt@.subrange(
                            r.command_cnt_idx.0 as int,
                            r.command_cnt_idx.1 as int,
                        ) =~= old_out.command_cnt@.subrange(
                            r.command_cnt_idx.0 as int,
                            r.command_cnt_idx.1 as int,
                        ));
                        assert(out.commands@.subrange(
                            r.commands_idx.0 as int,
                            r.commands_idx.1 as int,
                        ) =~= old_out.commands@.subrange(
                            r.commands_idx.0 as int,
                            r.commands_idx.1 as int,
                        ));
                    } else {
                        assert(out.command_cnt@.subrange(
                            cc_start as int,
                            out.command_cnt@.len() as int,
                        ) == measure_cnts(g@, args@, l as nat));
                        assert(out.commands@.subrange(cmd_start as int, out.commands@.len() as int)
                            == measure_cmds(g@, args@, l as nat, l as nat));
                    }
                }
                assert(out.wf());
            }
        }
        proof {
            assert forall|i: int|
                #![trigger sets@[i]]
                0 <= i < sets@.len() && sets@[i].measure < m + 1 && slot_count(
                    group(sets@, sets@[i].measure),
                ) > 0 implies exists|k: int|
                0 <= k < out.measure_sets@.len() && #[trigger] out.measure_sets@[k].measure
                    == sets@[i].measure by {
                if sets@[i].measure < lo {
                    let k = choose|k: int|
                        0 <= k < pre.measure_sets@.len() && #[trigger] pre.measure_sets@[k].measure
                            == sets@[i].measure;
                    assert(out.measure_sets@[k] == pre.measure_sets@[k]);
                } else {
                    assert(sets@[i].measure == m);
                    assert(out.measure_sets@[out.measure_sets@.len() - 1].measure == m);
                }
            }
        }
        lo = m as u64 + 1;
    }
    out
}

/// Slot `j * (l / c)` of a measure with `l` slots is a point of a subdivision
/// into `c`, and it takes the `j`-th value.
proof fn lemma_slot_of_value(c: nat, l: nat, j: nat)
    requires
        c > 0,
        l > 0,
        l % c == 0,
        j < c,
    ensures
        j * l / c == j * (l / c),
        j * (l / c) < l,
        (j * (l / c)) % (l / c) == 0,
        (j * (l / c)) * c / l == j,
{
    let d = l / c;
    vstd::arithmetic::div_mod::lemma_fundamental_div_mod(l as int, c as int);
    assert(l == d * c);
    assert(d > 0) by (nonlinear_arith)
        requires
            l == d * c,
            l > 0,
    ;
    assert(j * l == c * (j * d) && (j * d) * c == l * j) by (nonlinear_arith)
        requires
            l == d * c,
    ;
    vstd::arithmetic::div_mod::lemma_div_multiples_vanish((j * d) as int, c as int);
    vstd::arithmetic::div_mod::lemma_div_multiples_vanish(j as int, l as int);
    vstd::arithmetic::div_mod::lemma_mod_multiples_basic(j as int, d as int);
    assert(j * d < l) by (nonlinear_arith)
        requires
            l == d * c,
            j < c,
            d > 0,
    ;
}

/// Two command sets sharing a measure, with argument counts `c1, c2 > 0`,
/// quantize onto `lcm(c1, c2)` slots, and the `j`-th value of a set with
/// count `c` stands in slot `j * L / c`.
pub proof fn lemma_two_sets_quantize(g: Seq<ChannelCommandSet>, args: Seq<u32>)
    requires
        g.len() == 2,
        g[0].measure == g[1].measure,
        arg_count(g[0]) > 0,
        arg_count(g[1]) > 0,
        sets_in_bounds(g, args.len()),
    ensures
        slot_count(g) == lcm(arg_count(g[0]), arg_count(g[1])),
        forall|s: int, j: nat|
            0 <= s < 2 && j < arg_count(g[s]) ==> #[trigger] slot_cmds(
                g,
                args,
                slot_count(g),
                j * slot_count(g) / arg_count(g[s]),
            ).contains(ChannelCommand { channel: g[s].channel, value: args[g[s].args_idx.0 + j] }),
{
    let a = g[0];
    let b = g[1];
    let ca = arg_count(a);
    let cb = arg_count(b);
    assert(g.drop_last() == seq![a]);
    assert(seq![a].drop_last() == Seq::<ChannelCommandSet>::empty());
    assert(seq![a].last() == a);
    assert(slot_count(seq![a].drop_last()) == 0);
    assert(slot_count(seq![a]) == ca);
    let l = slot_count(g);
    lemma_lcm_multiple(ca, cb);
    assert forall|s: int, j: nat| 0 <= s < 2 && j < arg_count(g[s]) implies #[trigger] slot_cmds(
        g,
        args,
        l,
        j * l / arg_count(g[s]),
    ).contains(ChannelCommand { channel: g[s].channel, value: args[g[s].args_idx.0 + j] }) by {
        let c = arg_count(g[s]);
        lemma_slot_of_value(c, l, j);
        let p = j * l / c;
        let want = ChannelCommand { channel: g[s].channel, value: args[g[s].args_idx.0 + j] };
        if s == 0 {
            let s1 = slot_cmds(seq![a], args, l, p);
            assert(slot_cmds(seq![a].drop_last(), args, l, p) == Seq::<ChannelCommand>::empty());
            assert(s1 == Seq::<ChannelCommand>::empty().push(want));
            assert(s1[0] == want);
            assert(slot_cmds(g, args, l, p)[0] == s1[0]);
        } else {
            assert(slot_cmds(g, args, l, p).last() == want);
        }
    }
}

proof fn lemma_group_member(sets: Seq<ChannelCommandSet>, m: u32)
    requires
        group(sets, m).len() > 0,
    ensures
        exists|i: int| 0 <= i < sets.len() && #[trigger] sets[i].measure == m,
    decreases sets.len(),
{
    if sets.last().measure == m {
        assert(sets[sets.len() - 1].measure == m);
    } else {
        lemma_group_member(sets.drop_last(), m);
        let i = choose|i: int| 0 <= i < sets.len() - 1 && #[trigger] sets.drop_last()[i].measure == m;
        assert(sets[i] == sets.drop_last()[i]);
    }
}

/// A measure whose command sets all have zero length gets no region, and
/// when no later measure gets a slot either, the bar count stops below it.
pub proof fn lemma_empty_measure_omitted(
    out: &CBMS,
    sets: Seq<ChannelCommandSet>,
    args: Seq<u32>,
    m: u32,
)
    requires
        compiled_from(out, sets, args),
        forall|i: int| 0 <= i < sets.len() && #[trigger] sets[i].measure == m ==> arg_count(sets[i]) == 0,
    ensures
        forall|k: int|
            0 <= k < out.measure_sets@.len() ==> #[trigger] out.measure_sets@[k].measure != m,
        (forall|i: int|
            0 <= i < sets.len() && #[trigger] sets[i].measure >= m ==> slot_count(
                group(sets, sets[i].measure),
            ) == 0) ==> out.spec_bar_count() <= m,
{
    lemma_group_only_measure(sets, m);
    assert forall|j: int| 0 <= j < group(sets, m).len() implies arg_count(
        #[trigger] group(sets, m)[j],
    ) == 0 by {
        let i = choose|i: int| 0 <= i < sets.len() && sets[i] == group(sets, m)[j];
        assert(sets[i].measure == m);
    }
    lemma_slot_count_zero(group(sets, m));
    assert forall|k: int| 0 <= k < out.measure_sets@.len() implies #[trigger] out.measure_sets@[k].measure
        != m by {
        assert(compiled_measure(sets, args, out, k));
    }
    if forall|i: int|
        0 <= i < sets.len() && #[trigger] sets[i].measure >= m ==> slot_count(
            group(sets, sets[i].measure),
        ) == 0 {
        let n = out.measure_sets@.len();
        if n > 0 {
            let top = out.measure_sets@[n - 1].measure;
            assert(compiled_measure(sets, args, out, n - 1));
            assert(slot_count(group(sets, top)) > 0);
            if group(sets, top).len() == 0 {
                assert(slot_count(group(sets, top)) == 0);
            }
            lemma_group_member(sets, top);
            let i = choose|i: int| 0 <= i < sets.len() && #[trigger] sets[i].measure == top;
            assert(top < m);
        }
    }
}

/// The sets of `group(sets, m)` all belong to measure `m` and come from `sets`.
proof fn lemma_group_only_measure(sets: Seq<ChannelCommandSet>, m: u32)
    ensures
        forall|j: int|
            0 <= j < group(sets, m).len() ==> sets.contains(#[trigger] group(sets, m)[j])
                && group(sets, m)[j].measure == m,
    decreases sets.len(),
{
    if sets.len() > 0 {
        let p = sets.drop_last();
        lemma_group_only_measure(p, m);
        let g = group(sets, m);
        assert forall|j: int| 0 <= j < g.len() implies sets.contains(#[trigger] g[j]) && g[j].measure
            == m by {
            if j < group(p, m).len() {
                assert(g[j] == group(p, m)[j]);
                assert(p.contains(group(p, m)[j]));
                let i = choose|i: int| 0 <= i < p.len() && p[i] == group(p, m)[j];
                assert(sets[i] == p[i]);
            } else {
                assert(sets[sets.len() - 1] == g[j]);
            }
        }
    }
}

/// A group whose sets all have zero length has no slots.
proof fn lemma_slot_count_zero(g: Seq<ChannelCommandSet>)
    requires
        forall|j: int| 0 <= j < g.len() ==> arg_count(#[trigger] g[j]) == 0,
    ensures
        slot_count(g) == 0,
    decreases g.len(),
{
    if g.len() > 0 {
        assert(g.last() == g[g.len() - 1]);
        lemma_slot_count_zero(g.drop_last());
    }
}

} // verus!
