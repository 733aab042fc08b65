//! A circuit: microcontrollers wired port to port, stepped in lockstep.
//!
//! A tick steps every microcontroller once, then passes values from ports
//! that hold one to the ports they are wired to, as long as any such
//! rendezvous can take place.
use vstd::prelude::*;
use crate::assembler::{CodeError, IO_REGISTER_COUNT};
use crate::connection::McConnection;
use crate::microcontroller::{compile_spec, mc_step, McView, Microcontroller, Rect};
use crate::program::{
    blank_program, in_ready, out_ready, program_wf, read_in_spec, read_out_spec, IoDirection,
};

verus! {

/// Why a connection was refused.
#[derive(Copy, Clone, Debug, PartialEq, Eq, Structural)]
pub enum ConnectionError {
    /// A microcontroller index is not in the circuit.
    OutOfRangeMc,
    /// A port index is not a port of the microcontroller.
    OutOfRangePort,
}

/// Microcontrollers and the directed connections between their ports, each
/// from a producer port to a consumer port.
pub struct Circuit {
    mcs: Vec<Microcontroller>,
    connections: Vec<(McConnection, McConnection)>,
}

/// The mathematical state of a `Circuit`.
pub struct CircuitView {
    pub mcs: Seq<McView>,
    pub connections: Seq<(McConnection, McConnection)>,
}

impl View for Circuit {
    type V = CircuitView;

    closed spec fn view(&self) -> CircuitView {
        CircuitView {
            mcs: self.mcs@.map_values(|m: Microcontroller| m@),
            connections: self.connections@,
        }
    }
}

/// A port of one of the first `n` microcontrollers.
pub open spec fn port_valid(c: McConnection, n: int) -> bool {
    c.mc_i < n && c.io_i < IO_REGISTER_COUNT
}

/// No producer port is wired twice: the connections are a map.
pub open spec fn keys_unique(cs: Seq<(McConnection, McConnection)>) -> bool {
    forall|a: int, b: int| 0 <= a < b < cs.len() ==> (#[trigger] cs[a]).0 != (#[trigger] cs[b]).0
}

/// Every connection joins two ports of the circuit.
pub open spec fn ports_valid(cs: Seq<(McConnection, McConnection)>, n: int) -> bool {
    forall|a: int| 0 <= a < cs.len() ==> port_valid((#[trigger] cs[a]).0, n) && port_valid(cs[a].1, n)
}

/// The invariant of a circuit.
pub open spec fn circuit_wf(c: CircuitView) -> bool {
    &&& forall|i: int| 0 <= i < c.mcs.len() ==> program_wf((#[trigger] c.mcs[i]).program)
    &&& keys_unique(c.connections)
    &&& ports_valid(c.connections, c.mcs.len() as int)
}

/// The index of the connection from producer port `k`.
pub open spec fn key_index(cs: Seq<(McConnection, McConnection)>, k: McConnection) -> Option<int>
    decreases cs.len(),
{
    if cs.len() == 0 {
        None
    } else if cs.last().0 == k {
        Some(cs.len() - 1)
    } else {
        key_index(cs.drop_last(), k)
    }
}

/// The consumer port wired to producer port `k`.
pub open spec fn lookup(cs: Seq<(McConnection, McConnection)>, k: McConnection) -> Option<
    McConnection,
> {
    match key_index(cs, k) {
        Some(i) => Some(cs[i].1),
        None => None,
    }
}

/// Wires `k` to `v`, replacing an earlier connection from `k`.
pub open spec fn conn_insert(
    cs: Seq<(McConnection, McConnection)>,
    k: McConnection,
    v: McConnection,
) -> Seq<(McConnection, McConnection)> {
    match key_index(cs, k) {
        Some(i) => cs.update(i, (k, v)),
        None => cs.push((k, v)),
    }
}

/// Where a port of microcontroller `last` moves when it takes the place of `i`.
pub open spec fn remap(c: McConnection, i: usize, last: usize) -> McConnection {
    if c.mc_i == last {
        McConnection { mc_i: i, io_i: c.io_i }
    } else {
        c
    }
}

/// The connections left when microcontroller `i` is removed and `last`
/// moves into its place: those touching `i` are dropped, the others kept in
/// order with `last` renamed to `i`.
pub open spec fn repoint(cs: Seq<(McConnection, McConnection)>, i: usize, last: usize) -> Seq<
    (McConnection, McConnection),
>
    decreases cs.len(),
{
    if cs.len() == 0 {
        Seq::empty()
    } else {
        let rest = repoint(cs.drop_last(), i, last);
        let (k, v) = cs.last();
        if k.mc_i == i || v.mc_i == i {
            rest
        } else {
            rest.push((remap(k, i, last), remap(v, i, last)))
        }
    }
}

/// The circuit after removing microcontroller `i`: the last one takes its
/// place and the connections are repointed.
pub open spec fn remove_spec(c: CircuitView, i: int) -> CircuitView {
    CircuitView {
        mcs: c.mcs.update(i, c.mcs.last()).drop_last(),
        connections: repoint(c.connections, i as usize, (c.mcs.len() - 1) as usize),
    }
}

pub proof fn lemma_key_index(cs: Seq<(McConnection, McConnection)>, k: McConnection)
    ensures
        key_index(cs, k) matches Some(i) ==> 0 <= i < cs.len() && cs[i].0 == k,
        key_index(cs, k) is None ==> forall|a: int| 0 <= a < cs.len() ==> (#[trigger] cs[a]).0 != k,
    decreases cs.len(),
{
    if cs.len() > 0 {
        lemma_key_index(cs.drop_last(), k);
        if cs.last().0 != k {
            assert forall|a: int| 0 <= a < cs.len() - 1 implies #[trigger] cs[a] == cs.drop_last()[a] by {}
        }
    }
}

/// Every repointed connection comes from a kept connection of `cs`.
pub proof fn lemma_repoint_origin(cs: Seq<(McConnection, McConnection)>, i: usize, last: usize)
    ensures
        repoint(cs, i, last).len() <= cs.len(),
        forall|x: int|
            0 <= x < repoint(cs, i, last).len() ==> exists|a: int|
                0 <= a < cs.len() && (#[trigger] repoint(cs, i, last)[x]) == (
                    remap(cs[a].0, i, last),
                    remap(cs[a].1, i, last),
                ) && cs[a].0.mc_i != i && cs[a].1.mc_i != i,
    decreases cs.len(),
{
    if cs.len() > 0 {
        let init = cs.drop_last();
        lemma_repoint_origin(init, i, last);
        let r = repoint(cs, i, last);
        assert forall|x: int| 0 <= x < r.len() implies exists|a: int|
            0 <= a < cs.len() && (#[trigger] r[x]) == (remap(cs[a].0, i, last), remap(
                cs[a].1,
                i,
                last,
            )) && cs[a].0.mc_i != i && cs[a].1.mc_i != i by {
            if x < repoint(init, i, last).len() {
                let a = choose|a: int|
                    0 <= a < init.len() && (#[trigger] repoint(init, i, last)[x]) == (
                        remap(init[a].0, i, last),
                        remap(init[a].1, i, last),
                    ) && init[a].0.mc_i != i && init[a].1.mc_i != i;
                assert(init[a] == cs[a]);
            } else {
                assert(cs[cs.len() - 1] == cs.last());
            }
        }
    }
}

/// Repointing keeps the connections a map over valid ports of the smaller circuit.
#[verifier::rlimit(40)]
pub proof fn lemma_repoint_wf(cs: Seq<(McConnection, McConnection)>, i: usize, n: int)
    requires
        0 <= i < n,
        keys_unique(cs),
        ports_valid(cs, n),
    ensures
        keys_unique(repoint(cs, i, (n - 1) as usize)),
        ports_valid(repoint(cs, i, (n - 1) as usize), n - 1),
    decreases cs.len(),
{
    let last = (n - 1) as usize;
    if cs.len() > 0 {
        let init = cs.drop_last();
        assert(keys_unique(init)) by {
            assert forall|a: int, b: int| 0 <= a < b < init.len() implies (#[trigger] init[a]).0
                != (#[trigger] init[b]).0 by {
                assert(init[a] == cs[a] && init[b] == cs[b]);
            }
        }
        assert(ports_valid(init, n)) by {
            assert forall|a: int| 0 <= a < init.len() implies port_valid(
                (#[trigger] init[a]).0,
                n,
            ) && port_valid(init[a].1, n) by {
                assert(init[a] == cs[a]);
            }
        }
        lemma_repoint_wf(init, i, n);
        lemma_repoint_origin(init, i, last);
        let rest = repoint(init, i, last);
        let (k, v) = cs.last();
        assert(cs.last() == cs[cs.len() - 1]);
        if !(k.mc_i == i || v.mc_i == i) {
            let r = repoint(cs, i, last);
            assert(r == rest.push((remap(k, i, last), remap(v, i, last))));
            assert forall|a: int, b: int| 0 <= a < b < r.len() implies (#[trigger] r[a]).0 != (
            #[trigger] r[b]).0 by {
                if b < rest.len() {
                    assert(r[a] == rest[a] && r[b] == rest[b]);
                } else {
                    assert(r[a] == rest[a]);
                    let o = choose|o: int|
                        0 <= o < init.len() && (#[trigger] rest[a]) == (
                            remap(init[o].0, i, last),
                            remap(init[o].1, i, last),
                        ) && init[o].0.mc_i != i && init[o].1.mc_i != i;
                    assert(init[o] == cs[o]);
                    assert(cs[o].0 != cs[cs.len() - 1].0);
                }
            }
            assert forall|a: int| 0 <= a < r.len() implies port_valid((#[trigger] r[a]).0, n - 1)
                && port_valid(r[a].1, n - 1) by {
                if a < rest.len() {
                    assert(r[a] == rest[a]);
                }
            }
        }
    }
}


// ---------------------------------------------------------------------------
// The tick

/// Every microcontroller after one step.
pub open spec fn step_all(mcs: Seq<McView>) -> Seq<McView> {
    mcs.map_values(|m: McView| mc_step(m))
}

/// The port on which a microcontroller holds a value to be read out.
pub open spec fn out_port(m: McView) -> Option<usize> {
    match m.program.active_io {
        Some((p, IoDirection::Out)) => if p < IO_REGISTER_COUNT {
            Some(p)
        } else {
            None
        },
        _ => None,
    }
}

/// The producer port of microcontroller `i`, if it holds a value.
pub open spec fn producer_at(mcs: Seq<McView>, i: int) -> Option<McConnection> {
    match out_port(mcs[i]) {
        Some(p) => Some(McConnection { mc_i: i as usize, io_i: p }),
        None => None,
    }
}

/// Producer port `out` can pass its value: it holds one, and the consumer
/// port it is wired to waits for one.
pub open spec fn can_transfer(
    mcs: Seq<McView>,
    cs: Seq<(McConnection, McConnection)>,
    out: McConnection,
) -> bool {
    match lookup(cs, out) {
        Some(inn) => in_ready(mcs[inn.mc_i as int].program, inn.io_i) && out_ready(
            mcs[out.mc_i as int].program,
            out.io_i,
        ),
        None => false,
    }
}

/// The value of `out` is read out and read into `inn`, whose program then
/// steps to finish the instruction that waited for it (nothing happens where
/// a microcontroller index is outside the circuit).
pub open spec fn rendezvous(mcs: Seq<McView>, out: McConnection, inn: McConnection) -> Seq<McView> {
    if out.mc_i >= mcs.len() || inn.mc_i >= mcs.len() {
        mcs
    } else {
        let value = mcs[out.mc_i as int].program.rio[out.io_i as int];
        let m1 = mcs.update(
            out.mc_i as int,
            McView { program: read_out_spec(mcs[out.mc_i as int].program), ..mcs[out.mc_i as int] },
        );
        m1.update(
            inn.mc_i as int,
            mc_step(
                McView {
                    program: read_in_spec(m1[inn.mc_i as int].program, value, inn.io_i),
                    ..m1[inn.mc_i as int]
                },
            ),
        )
    }
}

/// One pass over the microcontrollers from `k` on, in order: each that
/// holds a value at that moment passes it where it can. The flag tells
/// whether any value passed in this pass.
pub open spec fn drain_pass(
    mcs: Seq<McView>,
    cs: Seq<(McConnection, McConnection)>,
    k: int,
    progressed: bool,
) -> (Seq<McView>, bool)
    decreases mcs.len() - k,
{
    if k < 0 || k >= mcs.len() {
        (mcs, progressed)
    } else {
        match producer_at(mcs, k) {
            Some(out) => if can_transfer(mcs, cs, out) {
                drain_pass(rendezvous(mcs, out, lookup(cs, out)->Some_0), cs, k + 1, true)
            } else {
                drain_pass(mcs, cs, k + 1, progressed)
            },
            None => drain_pass(mcs, cs, k + 1, progressed),
        }
    }
}

/// Passes over the microcontrollers until a pass passes no value, for at
/// most `fuel` passes.
pub open spec fn drain(mcs: Seq<McView>, cs: Seq<(McConnection, McConnection)>, fuel: nat) -> Seq<
    McView,
>
    decreases fuel,
{
    if fuel == 0 {
        mcs
    } else {
        let (m2, progressed) = drain_pass(mcs, cs, 0, false);
        if progressed {
            drain(m2, cs, (fuel - 1) as nat)
        } else {
            m2
        }
    }
}

/// One tick: every microcontroller steps once, then values pass from ports
/// that hold one to the ports wired to them, including values produced
/// while passing, until no value can pass. A microcontroller reads at most
/// two values per tick, so `2 n + 1` passes always reach that point (see
/// `lemma_tick_drains`).
pub open spec fn tick_spec(c: CircuitView) -> CircuitView {
    let s1 = step_all(c.mcs);
    CircuitView { mcs: drain(s1, c.connections, (2 * s1.len() + 1) as nat), ..c }
}

/// The microcontrollers of `a` and `b` run the same programs in the same
/// states; their geometry and source may differ.
pub open spec fn same_programs(a: Seq<McView>, b: Seq<McView>) -> bool {
    a.len() == b.len() && forall|i: int| 0 <= i < a.len() ==> (#[trigger] a[i]).program == b[i].program
}

pub proof fn lemma_rendezvous_same(a: Seq<McView>, b: Seq<McView>, out: McConnection, inn: McConnection)
    requires
        same_programs(a, b),
    ensures
        same_programs(rendezvous(a, out, inn), rendezvous(b, out, inn)),
{
    let ra = rendezvous(a, out, inn);
    let rb = rendezvous(b, out, inn);
    if out.mc_i < a.len() && inn.mc_i < a.len() {
        assert(a[out.mc_i as int].program == b[out.mc_i as int].program);
        assert(a[inn.mc_i as int].program == b[inn.mc_i as int].program);
        assert forall|i: int| 0 <= i < ra.len() implies (#[trigger] ra[i]).program == rb[i].program by {
            assert(a[i].program == b[i].program);
        }
    }
}

pub proof fn lemma_drain_pass_same(
    a: Seq<McView>,
    b: Seq<McView>,
    cs: Seq<(McConnection, McConnection)>,
    k: int,
    flag: bool,
)
    requires
        same_programs(a, b),
        ports_valid(cs, a.len() as int),
    ensures
        same_programs(drain_pass(a, cs, k, flag).0, drain_pass(b, cs, k, flag).0),
        drain_pass(a, cs, k, flag).1 == drain_pass(b, cs, k, flag).1,
    decreases a.len() - k,
{
    if 0 <= k < a.len() {
        assert(a[k].program == b[k].program);
        assert(producer_at(a, k) == producer_at(b, k));
        match producer_at(a, k) {
            Some(out) => {
                lemma_key_index(cs, out);
                match lookup(cs, out) {
                    Some(inn) => {
                        assert(port_valid(cs[key_index(cs, out)->Some_0].1, a.len() as int));
                        if inn.mc_i < a.len() && out.mc_i < a.len() {
                            assert(a[inn.mc_i as int].program == b[inn.mc_i as int].program);
                            assert(a[out.mc_i as int].program == b[out.mc_i as int].program);
                        }
                    },
                    None => {},
                }
                assert(can_transfer(a, cs, out) == can_transfer(b, cs, out));
                if can_transfer(a, cs, out) {
                    let inn = lookup(cs, out)->Some_0;
                    lemma_rendezvous_same(a, b, out, inn);
                    assert(rendezvous(a, out, inn).len() == a.len());
                    lemma_drain_pass_same(rendezvous(a, out, inn), rendezvous(b, out, inn), cs, k + 1, true);
                } else {
                    lemma_drain_pass_same(a, b, cs, k + 1, flag);
                }
            },
            None => {
                lemma_drain_pass_same(a, b, cs, k + 1, flag);
            },
        }
    }
}

pub proof fn lemma_drain_pass_len(
    a: Seq<McView>,
    cs: Seq<(McConnection, McConnection)>,
    k: int,
    flag: bool,
)
    ensures
        drain_pass(a, cs, k, flag).0.len() == a.len(),
    decreases a.len() - k,
{
    if 0 <= k < a.len() {
        match producer_at(a, k) {
            Some(out) => if can_transfer(a, cs, out) {
                let r = rendezvous(a, out, lookup(cs, out)->Some_0);
                assert(r.len() == a.len());
                lemma_drain_pass_len(r, cs, k + 1, true);
            } else {
                lemma_drain_pass_len(a, cs, k + 1, flag);
            },
            None => lemma_drain_pass_len(a, cs, k + 1, flag),
        }
    }
}

pub proof fn lemma_drain_same(
    a: Seq<McView>,
    b: Seq<McView>,
    cs: Seq<(McConnection, McConnection)>,
    fuel: nat,
)
    requires
        same_programs(a, b),
        ports_valid(cs, a.len() as int),
    ensures
        same_programs(drain(a, cs, fuel), drain(b, cs, fuel)),
    decreases fuel,
{
    if fuel > 0 {
        lemma_drain_pass_same(a, b, cs, 0, false);
        let (ma, pa) = drain_pass(a, cs, 0, false);
        let (mb, pb) = drain_pass(b, cs, 0, false);
        if pa {
            lemma_drain_pass_len(a, cs, 0, false);
            lemma_drain_same(ma, mb, cs, (fuel - 1) as nat);
        }
    }
}

/// A tick is a function of the programs and the connections: from
/// microcontrollers in equal states with equal connections, two ticks end
/// with the microcontrollers in equal states, register files included,
/// whatever their geometry and source.
pub proof fn lemma_tick_deterministic(a: CircuitView, b: CircuitView)
    requires
        same_programs(a.mcs, b.mcs),
        a.connections == b.connections,
        ports_valid(a.connections, a.mcs.len() as int),
    ensures
        same_programs(tick_spec(a).mcs, tick_spec(b).mcs),
        tick_spec(a).connections == tick_spec(b).connections,
{
    let sa = step_all(a.mcs);
    let sb = step_all(b.mcs);
    assert(same_programs(sa, sb)) by {
        assert forall|i: int| 0 <= i < sa.len() implies (#[trigger] sa[i]).program == sb[i].program by {
            assert(a.mcs[i].program == b.mcs[i].program);
        }
    }
    lemma_drain_same(sa, sb, a.connections, (2 * sa.len() + 1) as nat);
}

/// After a tick no port of any microcontroller is ready both to read a value
/// in and to hand one out.
pub proof fn lemma_tick_rendezvous_safety(c: CircuitView, i: int, p: usize)
    requires
        0 <= i < tick_spec(c).mcs.len(),
    ensures
        !(in_ready(tick_spec(c).mcs[i].program, p) && out_ready(tick_spec(c).mcs[i].program, p)),
{
}

/// Microcontroller `j` holds no value that could pass now.
pub open spec fn stuck_at(m: Seq<McView>, cs: Seq<(McConnection, McConnection)>, j: int) -> bool {
    match producer_at(m, j) {
        Some(out) => !can_transfer(m, cs, out),
        None => true,
    }
}

/// How many more values a microcontroller can read in this tick: two when
/// it waits for the first operand of its instruction, one when it waits for
/// the second, none when it waits for nothing.
pub open spec fn in_budget(m: McView) -> nat {
    match m.program.active_io {
        Some((_, IoDirection::In)) => match m.program.pending {
            Some(p) => if p.op1 is None {
                2nat
            } else {
                1nat
            },
            None => 2nat,
        },
        _ => 0nat,
    }
}

/// The budget of the first `k` microcontrollers.
pub open spec fn budget(mcs: Seq<McView>, k: int) -> nat
    decreases k,
{
    if k <= 0 {
        0
    } else {
        budget(mcs, k - 1) + in_budget(mcs[k - 1])
    }
}

pub open spec fn all_wf(mcs: Seq<McView>) -> bool {
    forall|i: int| 0 <= i < mcs.len() ==> program_wf((#[trigger] mcs[i]).program)
}

pub proof fn lemma_budget_bound(mcs: Seq<McView>, k: int)
    requires
        0 <= k,
    ensures
        budget(mcs, k) <= 2 * k,
    decreases k,
{
    if k > 0 {
        lemma_budget_bound(mcs, k - 1);
    }
}

pub proof fn lemma_budget_update(mcs: Seq<McView>, i: int, x: McView, k: int)
    requires
        0 <= i < mcs.len(),
        0 <= k <= mcs.len(),
    ensures
        i < k ==> budget(mcs.update(i, x), k) + in_budget(mcs[i]) == budget(mcs, k) + in_budget(x),
        i >= k ==> budget(mcs.update(i, x), k) == budget(mcs, k),
    decreases k,
{
    if k > 0 {
        lemma_budget_update(mcs, i, x, k - 1);
    }
}

/// Reading a value in and finishing the step lowers what a microcontroller can still read.
pub proof fn lemma_consume_budget(m: McView, v: i16, q: usize)
    requires
        program_wf(m.program),
        in_ready(m.program, q),
    ensures
        in_budget(mc_step(McView { program: read_in_spec(m.program, v, q), ..m })) < in_budget(m),
        program_wf(mc_step(McView { program: read_in_spec(m.program, v, q), ..m }).program),
{
    let r = read_in_spec(m.program, v, q);
    assert(program_wf(r));
    crate::program::lemma_step_wf(r);
}

/// What one pass does: it keeps every program well formed, never raises the
/// budget, lowers it when a value passes, and leaves the circuit as it was
/// when none can pass.
#[verifier::rlimit(60)]
pub proof fn lemma_drain_pass(
    m: Seq<McView>,
    cs: Seq<(McConnection, McConnection)>,
    k: int,
    flag: bool,
)
    requires
        0 <= k <= m.len(),
        m.len() <= usize::MAX,
        all_wf(m),
        ports_valid(cs, m.len() as int),
    ensures
        ({
            let (m2, p) = drain_pass(m, cs, k, flag);
            &&& m2.len() == m.len()
            &&& all_wf(m2)
            &&& budget(m2, m.len() as int) <= budget(m, m.len() as int)
            &&& p && !flag ==> budget(m2, m.len() as int) < budget(m, m.len() as int)
            &&& flag ==> p
            &&& !p ==> m2 == m && forall|j: int| k <= j < m.len() ==> #[trigger] stuck_at(m, cs, j)
        }),
    decreases m.len() - k,
{
    let n = m.len() as int;
    if k < n {
        match producer_at(m, k) {
            Some(out) => {
                if can_transfer(m, cs, out) {
                    lemma_key_index(cs, out);
                    let inn = lookup(cs, out)->Some_0;
                    let x = key_index(cs, out)->Some_0;
                    assert(port_valid(cs[x].1, n));
                    let mo = m[out.mc_i as int];
                    let mi = m[inn.mc_i as int];
                    assert(program_wf(mo.program) && program_wf(mi.program));
                    let value = mo.program.rio[out.io_i as int];
                    let po = McView { program: read_out_spec(mo.program), ..mo };
                    let m1 = m.update(out.mc_i as int, po);
                    assert(inn.mc_i != out.mc_i);
                    assert(m1[inn.mc_i as int] == mi);
                    let pi = mc_step(McView { program: read_in_spec(mi.program, value, inn.io_i), ..mi });
                    lemma_consume_budget(mi, value, inn.io_i);
                    let m2 = m1.update(inn.mc_i as int, pi);
                    assert(m2 == rendezvous(m, out, inn));
                    lemma_budget_update(m, out.mc_i as int, po, n);
                    lemma_budget_update(m1, inn.mc_i as int, pi, n);
                    assert(all_wf(m2)) by {
                        assert forall|i: int| 0 <= i < m2.len() implies program_wf(
                            (#[trigger] m2[i]).program,
                        ) by {
                            if i != inn.mc_i && i != out.mc_i {
                                assert(m2[i] == m[i]);
                            }
                        }
                    }
                    lemma_drain_pass(m2, cs, k + 1, true);
                } else {
                    lemma_drain_pass(m, cs, k + 1, flag);
                }
            },
            None => {
                lemma_drain_pass(m, cs, k + 1, flag);
            },
        }
    }
}

/// Draining with more passes than the budget ends with a pass in which no
/// value can pass.
pub proof fn lemma_drain_fixpoint(m: Seq<McView>, cs: Seq<(McConnection, McConnection)>, fuel: nat)
    requires
        fuel > budget(m, m.len() as int),
        m.len() <= usize::MAX,
        all_wf(m),
        ports_valid(cs, m.len() as int),
    ensures
        drain(m, cs, fuel).len() == m.len(),
        forall|j: int| 0 <= j < m.len() ==> #[trigger] stuck_at(drain(m, cs, fuel), cs, j),
    decreases fuel,
{
    lemma_drain_pass(m, cs, 0, false);
    let (m2, p) = drain_pass(m, cs, 0, false);
    if p {
        lemma_drain_fixpoint(m2, cs, (fuel - 1) as nat);
    }
}

/// A tick drains to a fixpoint: once it returns, no connection joins a port
/// that holds a value to a port that waits for one.
pub proof fn lemma_tick_drains(c: CircuitView)
    requires
        circuit_wf(c),
        c.mcs.len() <= usize::MAX,
    ensures
        forall|a: int|
            0 <= a < c.connections.len() ==> !(out_ready(
                tick_spec(c).mcs[(#[trigger] c.connections[a]).0.mc_i as int].program,
                c.connections[a].0.io_i,
            ) && in_ready(
                tick_spec(c).mcs[c.connections[a].1.mc_i as int].program,
                c.connections[a].1.io_i,
            )),
{
    let s1 = step_all(c.mcs);
    let cs = c.connections;
    assert(all_wf(s1)) by {
        assert forall|i: int| 0 <= i < s1.len() implies program_wf((#[trigger] s1[i]).program) by {
            crate::program::lemma_step_wf(c.mcs[i].program);
        }
    }
    lemma_budget_bound(s1, s1.len() as int);
    lemma_drain_fixpoint(s1, cs, (2 * s1.len() + 1) as nat);
    let t = tick_spec(c).mcs;
    assert forall|a: int| 0 <= a < cs.len() implies !(out_ready(
        t[(#[trigger] cs[a]).0.mc_i as int].program,
        cs[a].0.io_i,
    ) && in_ready(t[cs[a].1.mc_i as int].program, cs[a].1.io_i)) by {
        let (k, v) = cs[a];
        assert(port_valid(k, c.mcs.len() as int) && port_valid(v, c.mcs.len() as int));
        if out_ready(t[k.mc_i as int].program, k.io_i) {
            assert(stuck_at(t, cs, k.mc_i as int));
            assert(producer_at(t, k.mc_i as int) == Some(k));
            lemma_key_index(cs, k);
            let x = key_index(cs, k)->Some_0;
            assert(x == a) by {
                if x != a {
                    if x < a {
                        assert(cs[x].0 != cs[a].0);
                    } else {
                        assert(cs[a].0 != cs[x].0);
                    }
                }
            }
            assert(lookup(cs, k) == Some(v));
        }
    }
}

impl Circuit {
    /// The invariant of this circuit.
    pub open spec fn wf(&self) -> bool {
        circuit_wf(self@)
    }

    /// An empty circuit.
    pub fn new() -> (r: Self)
        ensures
            r@.mcs == Seq::<McView>::empty(),
            r@.connections == Seq::<(McConnection, McConnection)>::empty(),
            r.wf(),
    {
        let c = Circuit { mcs: Vec::new(), connections: Vec::new() };
        assert(c@.mcs == Seq::<McView>::empty());
        c
    }

    /// The number of microcontrollers.
    pub fn num_mcs(&self) -> (r: usize)
        ensures
            r == self@.mcs.len(),
    {
        self.mcs.len()
    }

    /// Microcontroller `i`.
    pub fn get_mc(&self, i: usize) -> (r: &Microcontroller)
        requires
            i < self@.mcs.len(),
        ensures
            r@ == self@.mcs[i as int],
    {
        &self.mcs[i]
    }

    /// The number of ports of microcontroller `i`.
    pub fn io_count(&self, i: usize) -> (r: usize)
        requires
            self.wf(),
            i < self@.mcs.len(),
        ensures
            r == IO_REGISTER_COUNT,
    {
        assert(program_wf(self@.mcs[i as int].program));
        self.mcs[i].io_count()
    }

    /// The connections, each from a producer port to a consumer port.
    pub fn connections(&self) -> (r: &Vec<(McConnection, McConnection)>)
        ensures
            r@ == self@.connections,
    {
        &self.connections
    }

    /// The consumer port wired to producer port `from`, if any.
    pub fn get_connection(&self, from: McConnection) -> (r: Option<McConnection>)
        ensures
            r == lookup(self@.connections, from),
    {
        let mut i = self.connections.len();
        assert(self.connections@.take(i as int) == self.connections@);
        while i > 0
            invariant
                i <= self.connections@.len(),
                key_index(self.connections@, from) == key_index(
                    self.connections@.take(i as int),
                    from,
                ),
            decreases i,
        {
            assert(self.connections@.take(i as int).drop_last() == self.connections@.take(i - 1));
            i = i - 1;
            if self.connections[i].0 == from {
                return Some(self.connections[i].1);
            }
        }
        None
    }

    /// Replaces the source code of microcontroller `i`.
    pub fn set_code(&mut self, i: usize, code: String)
        requires
            old(self).wf(),
            i < old(self)@.mcs.len(),
        ensures
            final(self).wf(),
            final(self)@ == (CircuitView {
                mcs: old(self)@.mcs.update(
                    i as int,
                    McView { code: code@, ..old(self)@.mcs[i as int] },
                ),
                ..old(self)@
            }),
    {
        assert(program_wf(self@.mcs[i as int].program));
        let ghost prev = self.mcs@;
        self.mcs[i].set_code(code);
        proof {
            assert(self.mcs@ == prev.update(i as int, self.mcs@[i as int]));
            assert(self@.mcs == old(self)@.mcs.update(
                i as int,
                McView { code: code@, ..old(self)@.mcs[i as int] },
            ));
            assert forall|a: int| 0 <= a < self@.mcs.len() implies program_wf(
                (#[trigger] self@.mcs[a]).program,
            ) by {
                assert(program_wf(old(self)@.mcs[a].program));
            }
        }
    }

    /// Reads `value` into port `index` of microcontroller `i` where it waits for one.
    pub fn io_read_in(&mut self, i: usize, value: i16, index: usize) -> (r: Result<(), ()>)
        requires
            old(self).wf(),
            i < old(self)@.mcs.len(),
        ensures
            final(self).wf(),
            in_ready(old(self)@.mcs[i as int].program, index) ==> r is Ok && final(self)@ == (
            CircuitView {
                mcs: old(self)@.mcs.update(
                    i as int,
                    McView {
                        program: read_in_spec(old(self)@.mcs[i as int].program, value, index),
                        ..old(self)@.mcs[i as int]
                    },
                ),
                ..old(self)@
            }),
            !in_ready(old(self)@.mcs[i as int].program, index) ==> r is Err && final(self)@ == old(
                self,
            )@,
    {
        assert(program_wf(self@.mcs[i as int].program));
        let ghost prev = self.mcs@;
        let r = self.mcs[i].io_read_in(value, index);
        proof {
            assert(self.mcs@ == prev.update(i as int, self.mcs@[i as int]));
            assert(self@.mcs =~= old(self)@.mcs.update(i as int, self.mcs@[i as int]@));
            assert(old(self)@.mcs.update(i as int, old(self)@.mcs[i as int]) =~= old(self)@.mcs);
            assert forall|a: int| 0 <= a < self@.mcs.len() implies program_wf(
                (#[trigger] self@.mcs[a]).program,
            ) by {
                assert(program_wf(old(self)@.mcs[a].program));
            }
        }
        r
    }

    /// Reads the value waiting on port `index` of microcontroller `i`, if one waits there.
    pub fn io_read_out(&mut self, i: usize, index: usize) -> (r: Option<i16>)
        requires
            old(self).wf(),
            i < old(self)@.mcs.len(),
        ensures
            final(self).wf(),
            out_ready(old(self)@.mcs[i as int].program, index) ==> r == Some(
                old(self)@.mcs[i as int].program.rio[index as int],
            ) && final(self)@ == (CircuitView {
                mcs: old(self)@.mcs.update(
                    i as int,
                    McView {
                        program: read_out_spec(old(self)@.mcs[i as int].program),
                        ..old(self)@.mcs[i as int]
                    },
                ),
                ..old(self)@
            }),
            !out_ready(old(self)@.mcs[i as int].program, index) ==> r is None && final(self)@ == old(
                self,
            )@,
    {
        assert(program_wf(self@.mcs[i as int].program));
        let ghost prev = self.mcs@;
        let r = self.mcs[i].io_read_out(index);
        proof {
            assert(self.mcs@ == prev.update(i as int, self.mcs@[i as int]));
            assert(self@.mcs =~= old(self)@.mcs.update(i as int, self.mcs@[i as int]@));
            assert(old(self)@.mcs.update(i as int, old(self)@.mcs[i as int]) =~= old(self)@.mcs);
            assert forall|a: int| 0 <= a < self@.mcs.len() implies program_wf(
                (#[trigger] self@.mcs[a]).program,
            ) by {
                assert(program_wf(old(self)@.mcs[a].program));
            }
        }
        r
    }

    /// Adds a microcontroller at `rect` with no code and a blank program.
    pub fn add_circuit(&mut self, rect: Rect)
        requires
            old(self).wf(),
        ensures
            final(self).wf(),
            final(self)@ == (CircuitView {
                mcs: old(self)@.mcs.push(
                    McView { rect, code: Seq::empty(), program: blank_program() },
                ),
                ..old(self)@
            }),
    {
        let mc = Microcontroller::new(rect);
        self.mcs.push(mc);
        assert(self@.mcs == old(self)@.mcs.push(mc@));
        assert forall|a: int| 0 <= a < self@.connections.len() implies port_valid(
            (#[trigger] self@.connections[a]).0,
            self@.mcs.len() as int,
        ) && port_valid(self@.connections[a].1, self@.mcs.len() as int) by {
            assert(port_valid(old(self)@.connections[a].0, old(self)@.mcs.len() as int));
        }
    }

    /// Wires producer port `con1` to consumer port `con2`, replacing an
    /// earlier connection from `con1`.
    #[verifier::rlimit(40)]
    pub fn add_connection(&mut self, con1: McConnection, con2: McConnection) -> (r: Result<
        (),
        ConnectionError,
    >)
        requires
            old(self).wf(),
        ensures
            final(self).wf(),
            ({
                let n = old(self)@.mcs.len();
                if con1.mc_i >= n || con2.mc_i >= n {
                    r == Err::<(), ConnectionError>(ConnectionError::OutOfRangeMc) && final(self)@
                        == old(self)@
                } else if con1.io_i >= IO_REGISTER_COUNT || con2.io_i >= IO_REGISTER_COUNT {
                    r == Err::<(), ConnectionError>(ConnectionError::OutOfRangePort)
                        && final(self)@ == old(self)@
                } else {
                    r is Ok && final(self)@ == (CircuitView {
                        connections: conn_insert(old(self)@.connections, con1, con2),
                        ..old(self)@
                    })
                }
            }),
    {
        let n = self.mcs.len();
        if con1.mc_i >= n || con2.mc_i >= n {
            return Err(ConnectionError::OutOfRangeMc);
        }
        if con1.io_i >= self.io_count(con1.mc_i) || con2.io_i >= self.io_count(con2.mc_i) {
            return Err(ConnectionError::OutOfRangePort);
        }
        proof {
            lemma_key_index(self.connections@, con1);
        }
        let ghost cs = self.connections@;
        let mut i = self.connections.len();
        assert(cs.take(i as int) == cs);
        while i > 0
            invariant
                i <= cs.len(),
                cs == self.connections@,
                self@ == old(self)@,
                circuit_wf(self@),
                port_valid(con1, self@.mcs.len() as int),
                port_valid(con2, self@.mcs.len() as int),
                key_index(cs, con1) == key_index(cs.take(i as int), con1),
            decreases i,
        {
            assert(cs.take(i as int).drop_last() == cs.take(i - 1));
            i = i - 1;
            if self.connections[i].0 == con1 {
                self.connections.set(i, (con1, con2));
                assert(self@.mcs == old(self)@.mcs);
                assert forall|a: int, b: int|
                    0 <= a < b < self.connections@.len() implies (
                    #[trigger] self.connections@[a]).0 != (#[trigger] self.connections@[b]).0 by {
                    assert(cs[a].0 != cs[b].0);
                }
                assert forall|a: int| 0 <= a < self.connections@.len() implies port_valid(
                    (#[trigger] self.connections@[a]).0,
                    self@.mcs.len() as int,
                ) && port_valid(self.connections@[a].1, self@.mcs.len() as int) by {
                    assert(port_valid(cs[a].0, self@.mcs.len() as int));
                    assert(port_valid(cs[a].1, self@.mcs.len() as int));
                }
                return Ok(());
            }
        }
        assert(cs.take(0) == Seq::<(McConnection, McConnection)>::empty());
        self.connections.push((con1, con2));
        assert(self@.mcs == old(self)@.mcs);
        assert forall|a: int| 0 <= a < self.connections@.len() implies port_valid(
            (#[trigger] self.connections@[a]).0,
            self@.mcs.len() as int,
        ) && port_valid(self.connections@[a].1, self@.mcs.len() as int) by {
            if a < cs.len() {
                assert(port_valid(cs[a].0, self@.mcs.len() as int));
                assert(port_valid(cs[a].1, self@.mcs.len() as int));
            }
        }
        assert forall|a: int, b: int|
            0 <= a < b < self.connections@.len() implies (#[trigger] self.connections@[a]).0 != (
        #[trigger] self.connections@[b]).0 by {
            if b < cs.len() {
                assert(cs[a].0 != cs[b].0);
            } else {
                assert(cs[a].0 != con1);
            }
        }
        Ok(())
    }

    /// Drops the connections touching microcontroller `i` and renames
    /// microcontroller `last` to `i` in the others.
    fn remove_connection(&mut self, i: usize)
        requires
            old(self).wf(),
            i < old(self)@.mcs.len(),
        ensures
            final(self)@ == (CircuitView {
                connections: repoint(
                    old(self)@.connections,
                    i,
                    (old(self)@.mcs.len() - 1) as usize,
                ),
                ..old(self)@
            }),
    {
        let last = self.mcs.len() - 1;
        let ghost cs = self.connections@;
        let mut kept: Vec<(McConnection, McConnection)> = Vec::new();
        let mut a: usize = 0;
        while a < self.connections.len()
            invariant
                a <= cs.len(),
                cs == self.connections@,
                kept@ == repoint(cs.take(a as int), i, last),
            decreases cs.len() - a,
        {
            assert(cs.take(a + 1).drop_last() == cs.take(a as int));
            let (k, v) = self.connections[a];
            if !(k.mc_i == i || v.mc_i == i) {
                let k2 = if k.mc_i == last {
                    McConnection::new(i, k.io_i)
                } else {
                    k
                };
                let v2 = if v.mc_i == last {
                    McConnection::new(i, v.io_i)
                } else {
                    v
                };
                kept.push((k2, v2));
            }
            a = a + 1;
        }
        assert(cs.take(cs.len() as int) == cs);
        self.connections = kept;
    }

    /// Removes microcontroller `i`: the last microcontroller takes its
    /// place, connections touching `i` are dropped and those of the last
    /// one are repointed to `i`.
    pub fn remove_mc(&mut self, i: usize)
        requires
            old(self).wf(),
            i < old(self)@.mcs.len(),
        ensures
            final(self).wf(),
            final(self)@ == remove_spec(old(self)@, i as int),
    {
        self.remove_connection(i);
        let ghost mid = self.mcs@;
        self.mcs.swap_remove(i);
        proof {
            lemma_repoint_wf(old(self)@.connections, i, old(self)@.mcs.len() as int);
            assert(self@.mcs == old(self)@.mcs.update(i as int, old(self)@.mcs.last()).drop_last());
            assert forall|a: int| 0 <= a < self@.mcs.len() implies program_wf(
                (#[trigger] self@.mcs[a]).program,
            ) by {
                if a == i {
                    assert(program_wf(old(self)@.mcs[old(self)@.mcs.len() - 1].program));
                } else {
                    assert(program_wf(old(self)@.mcs[a].program));
                }
            }
        }
    }

    /// Removes every microcontroller and connection.
    pub fn clear(&mut self)
        ensures
            final(self)@.mcs == Seq::<McView>::empty(),
            final(self)@.connections == Seq::<(McConnection, McConnection)>::empty(),
            final(self).wf(),
    {
        self.connections.clear();
        self.mcs.clear();
        assert(self@.mcs == Seq::<McView>::empty());
    }

    /// Compiles the source of every microcontroller. An error leaves that
    /// microcontroller's program as it was and does not stop the others; the
    /// result holds one outcome per microcontroller.
    #[verifier::rlimit(40)]
    pub fn compile_all(&mut self) -> (r: Vec<Result<(), CodeError>>)
        requires
            old(self).wf(),
        ensures
            final(self).wf(),
            final(self)@ == (CircuitView {
                mcs: old(self)@.mcs.map_values(|m: McView| compile_spec(m)),
                ..old(self)@
            }),
            r@.len() == old(self)@.mcs.len(),
            forall|i: int|
                0 <= i < r@.len() ==> match crate::assembler::assemble(
                    #[trigger] old(self)@.mcs[i].code,
                ) {
                    Ok(_) => r@[i] is Ok,
                    Err(e) => r@[i] == Err::<(), CodeError>(e),
                },
    {
        let ghost before = self@;
        let mut results: Vec<Result<(), CodeError>> = Vec::new();
        let mut i: usize = 0;
        while i < self.mcs.len()
            invariant
                i <= self@.mcs.len() == before.mcs.len(),
                self@.connections == before.connections,
                circuit_wf(self@),
                forall|a: int| 0 <= a < i ==> self@.mcs[a] == compile_spec(#[trigger] before.mcs[a]),
                forall|a: int| i <= a < self@.mcs.len() ==> self@.mcs[a] == #[trigger] before.mcs[a],
                results@.len() == i,
                forall|a: int|
                    0 <= a < i ==> match crate::assembler::assemble(#[trigger] before.mcs[a].code) {
                        Ok(_) => results@[a] is Ok,
                        Err(e) => results@[a] == Err::<(), CodeError>(e),
                    },
            decreases before.mcs.len() - i,
        {
            assert(program_wf(self@.mcs[i as int].program));
            let ghost prev = self.mcs@;
            let r = self.mcs[i].compile();
            proof {
                assert(self.mcs@ == prev.update(i as int, self.mcs@[i as int]));
                assert forall|a: int| 0 <= a < self@.mcs.len() implies #[trigger] self@.mcs[a] == (
                if a == i {
                    compile_spec(before.mcs[a])
                } else {
                    prev[a]@
                }) by {}
                assert forall|a: int| 0 <= a < self@.mcs.len() implies program_wf(
                    (#[trigger] self@.mcs[a]).program,
                ) by {
                    if a != i {
                        assert(self@.mcs[a] == prev[a]@);
                    }
                }
            }
            results.push(r);
            i = i + 1;
        }
        assert(self@.mcs == before.mcs.map_values(|m: McView| compile_spec(m)));
        results
    }
    /// The producer port of microcontroller `i`, if it holds a value.
    fn producer_port(&self, i: usize) -> (r: Option<usize>)
        requires
            self.wf(),
            i < self@.mcs.len(),
        ensures
            r == out_port(self@.mcs[i as int]),
    {
        assert(program_wf(self@.mcs[i as int].program));
        let count = self.mcs[i].io_count();
        let mut port: usize = 0;
        while port < count
            invariant
                count == IO_REGISTER_COUNT,
                port <= count,
                i < self@.mcs.len(),
                forall|q: usize| q < port ==> !out_ready(#[trigger] self@.mcs[i as int].program, q),
            decreases count - port,
        {
            if self.mcs[i].io_read_out_ready(port) {
                return Some(port);
            }
            port = port + 1;
        }
        proof {
            if let Some(p) = out_port(self@.mcs[i as int]) {
                assert(!out_ready(self@.mcs[i as int].program, p));
            }
        }
        None
    }

    /// One tick of the circuit (see `tick_spec`): every microcontroller
    /// steps once, in order; then, pass after pass, each microcontroller
    /// that holds a value, in order, hands it to the port wired to it if
    /// that port waits for one, until a pass hands over no value.
    #[verifier::rlimit(60)]
    pub fn tick(&mut self)
        requires
            old(self).wf(),
        ensures
            final(self).wf(),
            final(self)@ == tick_spec(old(self)@),
    {
        let ghost c0 = self@;
        let ghost cs = c0.connections;
        let n = self.mcs.len();
        let mut i: usize = 0;
        while i < n
            invariant
                n == self@.mcs.len() == c0.mcs.len(),
                self@.connections == cs,
                circuit_wf(self@),
                forall|a: int| 0 <= a < i ==> self@.mcs[a] == mc_step(#[trigger] c0.mcs[a]),
                forall|a: int| i <= a < n ==> self@.mcs[a] == #[trigger] c0.mcs[a],
            decreases n - i,
        {
            assert(program_wf(self@.mcs[i as int].program));
            let ghost prev = self.mcs@;
            let ghost pv = self@.mcs;
            self.mcs[i].step();
            proof {
                assert(self.mcs@ == prev.update(i as int, self.mcs@[i as int]));
                assert forall|a: int| 0 <= a < n && a != i implies #[trigger] self@.mcs[a]
                    == prev[a]@ by {}
                assert forall|a: int| 0 <= a < n implies program_wf(
                    (#[trigger] self@.mcs[a]).program,
                ) by {
                    if a != i {
                        assert(self@.mcs[a] == prev[a]@);
                        assert(pv[a] == prev[a]@);
                        assert(program_wf(pv[a].program));
                    } else {
                        assert(self@.mcs[a] == self.mcs@[a]@);
                    }
                }
            }
            i = i + 1;
        }
        let ghost s1 = self@.mcs;
        assert(s1 == step_all(c0.mcs));
        let ghost goal = drain(s1, cs, (2 * s1.len() + 1) as nat);
        let mut remaining: u128 = 2 * (n as u128);
        let mut done = false;
        while !done
            invariant
                remaining <= 2 * n,
                self@.connections == cs,
                self@.mcs.len() == n,
                circuit_wf(self@),
                !done ==> goal == drain(self@.mcs, cs, (remaining + 1) as nat),
                done ==> self@.mcs == goal,
            decreases remaining + if done {
                0int
            } else {
                1int
            },
        {
            let ghost start = self@.mcs;
            let mut progressed = false;
            let mut k: usize = 0;
            while k < n
                invariant
                    k <= n,
                    self@.connections == cs,
                    self@.mcs.len() == n,
                    circuit_wf(self@),
                    drain_pass(start, cs, 0, false) == drain_pass(
                        self@.mcs,
                        cs,
                        k as int,
                        progressed,
                    ),
                decreases n - k,
            {
                let ghost m0 = self@.mcs;
                match self.producer_port(k) {
                    Some(p) => {
                        let out = McConnection::new(k, p);
                        assert(producer_at(m0, k as int) == Some(out));
                        match self.get_connection(out) {
                            Some(inn) => {
                                proof {
                                    lemma_key_index(cs, out);
                                    let x = key_index(cs, out)->Some_0;
                                    assert(port_valid(cs[x].1, n as int));
                                }
                                if self.mcs[inn.mc_i].io_read_in_ready(inn.io_i)
                                    && self.mcs[out.mc_i].io_read_out_ready(out.io_i) {
                                    assert(program_wf(m0[out.mc_i as int].program));
                                    let value = match self.mcs[out.mc_i].io_read_out(out.io_i) {
                                        Some(v) => v,
                                        None => 0,
                                    };
                                    let ghost m1 = self@.mcs;
                                    proof {
                                        assert(m1 == m0.update(
                                            out.mc_i as int,
                                            McView {
                                                program: read_out_spec(m0[out.mc_i as int].program),
                                                ..m0[out.mc_i as int]
                                            },
                                        ));
                                        assert(program_wf(m1[inn.mc_i as int].program));
                                    }
                                    let _ = self.mcs[inn.mc_i].io_read_in(value, inn.io_i);
                                    self.mcs[inn.mc_i].step();
                                    proof {
                                        assert(self@.mcs == rendezvous(m0, out, inn));
                                        assert forall|a: int| 0 <= a < n implies program_wf(
                                            (#[trigger] self@.mcs[a]).program,
                                        ) by {
                                            if a != inn.mc_i {
                                                assert(self@.mcs[a] == m1[a]);
                                                if a != out.mc_i {
                                                    assert(m1[a] == m0[a]);
                                                }
                                            }
                                        }
                                    }
                                    progressed = true;
                                }
                            },
                            None => {},
                        }
                    },
                    None => {},
                }
                k = k + 1;
            }
            proof {
                assert(drain_pass(self@.mcs, cs, n as int, progressed) == (self@.mcs, progressed));
                assert(drain(self@.mcs, cs, 0) == self@.mcs);
                assert(drain(start, cs, (remaining + 1) as nat) == if progressed {
                    drain(self@.mcs, cs, remaining as nat)
                } else {
                    self@.mcs
                });
            }
            if !progressed || remaining == 0 {
                done = true;
            } else {
                remaining = remaining - 1;
            }
        }
    }
}

} // verus!
