//! The per-node simulation engine: net state, event buffers, feeding-node
//! clocks, and the four phases of one loop iteration — fire due transitions,
//! dispatch external events, tick the clock under the conservative rule, and
//! integrate arrived internal events.

use vstd::prelude::*;

use vstd::string::StringSliceAdditionalSpecFns;

use crate::codec::WireForm;
use crate::codec::active_line;
use crate::codec::bytes_of;
use crate::codec::chars_of;
use crate::codec::parse_wire;
use crate::codec::wire_in_range;
use crate::codec::passive_line;
use crate::codec::serialize_active;
use crate::codec::serialize_passive;
use crate::codec::wf_name;
use crate::error::AppError;
use crate::model::PassiveEvent;
use crate::model::ActiveEvent;
use crate::model::ActiveEventView;
use crate::model::Instruction;
use crate::model::Net;
use crate::model::Transition;
use crate::model::events_view;

verus! {

/// Unique global ids: no two transitions of the sequence share one.
pub open spec fn unique_ids(net: Seq<Transition>) -> bool {
    forall|i: int, j: int|
        0 <= i < j < net.len() ==> #[trigger] net[i].id != #[trigger] net[j].id
}

/// Some transition of the sequence carries this id.
pub open spec fn net_has_id(net: Seq<Transition>, id: nat) -> bool {
    exists|j: int| 0 <= j < net.len() && #[trigger] net[j].id == id
}

/// The index of the transition with this id (unique under [`unique_ids`]).
pub open spec fn idx_of_id(net: Seq<Transition>, id: nat) -> int {
    choose|j: int| 0 <= j < net.len() && #[trigger] net[j].id == id
}

/// Unique keys in the transition-to-owner map.
pub open spec fn unique_keys(m: Seq<(usize, String)>) -> bool {
    forall|i: int, j: int| 0 <= i < j < m.len() ==> (#[trigger] m[i]).0 != (#[trigger] m[j]).0
}

/// Whether the owner map knows this transition id.
pub open spec fn map_has(m: Seq<(usize, String)>, id: nat) -> bool {
    exists|j: int| 0 <= j < m.len() && (#[trigger] m[j]).0 == id
}

/// The index of this id's entry in the owner map.
pub open spec fn map_idx(m: Seq<(usize, String)>, id: nat) -> int {
    choose|j: int| 0 <= j < m.len() && (#[trigger] m[j]).0 == id
}

/// The owning node of this transition id.
pub open spec fn owner_of(m: Seq<(usize, String)>, id: nat) -> Seq<char> {
    m[map_idx(m, id)].1@
}

/// Instruction sanity of a loaded net against the owner map: immediate
/// instructions are internal and name a local transition; delayed
/// instructions name a mapped transition.
pub open spec fn net_instructions_wf(net: Seq<Transition>, m: Seq<(usize, String)>) -> bool {
    &&& forall|i: int, k: int|
        0 <= i < net.len() && 0 <= k < net[i].immediate_instructions@.len() ==> {
            let ins = #[trigger] net[i].immediate_instructions@[k];
            &&& !ins.is_external
            &&& net_has_id(net, ins.transition_id as nat)
        }
    &&& forall|i: int, k: int|
        0 <= i < net.len() && 0 <= k < net[i].delayed_instructions@.len() ==> map_has(
            m,
            (#[trigger] net[i].delayed_instructions@[k]).transition_id as nat,
        )
}

/// Enabled and due: the transition's clock matches the engine clock and its
/// token value is not positive.
pub open spec fn is_due(t: Transition, clk: nat) -> bool {
    &&& t.clock == clk
    &&& t.value <= 0
}

/// The net after one immediate instruction: the target's value becomes the
/// instruction's value (a missing target leaves the net unchanged; a
/// well-formed net never lacks one).
pub open spec fn apply_one(net: Seq<Transition>, ins: Instruction) -> Seq<Transition> {
    if net_has_id(net, ins.transition_id as nat) {
        let j = idx_of_id(net, ins.transition_id as nat);
        net.update(j, Transition { value: ins.value, ..net[j] })
    } else {
        net
    }
}

/// The net after a list of immediate instructions, applied in order.
pub open spec fn apply_immediates(net: Seq<Transition>, ins: Seq<Instruction>) -> Seq<Transition>
    decreases ins.len(),
{
    if ins.len() == 0 {
        net
    } else {
        apply_one(apply_immediates(net, ins.drop_last()), ins.last())
    }
}

/// The active events a list of delayed instructions schedules, split into
/// (internal, external) and stamped `when`, in instruction order.
pub open spec fn route_delayed(instrs: Seq<Instruction>, node: Seq<char>, when: nat) -> (
    Seq<ActiveEventView>,
    Seq<ActiveEventView>,
)
    decreases instrs.len(),
{
    if instrs.len() == 0 {
        (Seq::<ActiveEventView>::empty(), Seq::<ActiveEventView>::empty())
    } else {
        let (ints, exts) = route_delayed(instrs.drop_last(), node, when);
        let ins = instrs.last();
        let ev = ActiveEventView {
            feeding_node: node,
            transition_id: ins.transition_id as nat,
            value: ins.value as int,
            clock: when,
        };
        if ins.is_external {
            (ints, exts.push(ev))
        } else {
            (ints.push(ev), exts)
        }
    }
}

/// Intermediate state of the firing phase: the mutated net and the events
/// appended so far.
pub struct FireState {
    pub net: Seq<Transition>,
    pub internal: Seq<ActiveEventView>,
    pub external: Seq<ActiveEventView>,
}

/// One step of the firing fold at index `idx`: when the snapshot transition
/// is due, apply its immediate instructions and route its delayed ones.
/// Dueness, instruction lists, clock and duration are all read from the
/// snapshot `net0` taken at the top of the iteration.
pub open spec fn fire_one(
    net0: Seq<Transition>,
    clk: nat,
    node: Seq<char>,
    st: FireState,
    idx: int,
) -> FireState {
    if is_due(net0[idx], clk) {
        let t = net0[idx];
        let (ints, exts) = route_delayed(t.delayed_instructions@, node, (t.clock + t.duration) as nat);
        FireState {
            net: apply_immediates(st.net, t.immediate_instructions@),
            internal: st.internal + ints,
            external: st.external + exts,
        }
    } else {
        st
    }
}

/// The firing fold from index `i` to the end, processed in reverse order of
/// appearance (stack semantics): index `len - 1` first, `i` last.
pub open spec fn fire_from(net0: Seq<Transition>, clk: nat, node: Seq<char>, i: int) -> FireState
    decreases net0.len() - i,
{
    if i < 0 || i >= net0.len() {
        FireState {
            net: net0,
            internal: Seq::<ActiveEventView>::empty(),
            external: Seq::<ActiveEventView>::empty(),
        }
    } else {
        fire_one(net0, clk, node, fire_from(net0, clk, node, i + 1), i)
    }
}

/// Two nets with the same skeleton: only token values may differ.
pub open spec fn same_skeleton(a: Seq<Transition>, b: Seq<Transition>) -> bool {
    &&& a.len() == b.len()
    &&& forall|j: int|
        0 <= j < a.len() ==> {
            &&& (#[trigger] b[j]).id == a[j].id
            &&& b[j].clock == a[j].clock
            &&& b[j].duration == a[j].duration
            &&& b[j].immediate_instructions == a[j].immediate_instructions
            &&& b[j].delayed_instructions == a[j].delayed_instructions
            &&& b[j].is_output == a[j].is_output
        }
}

proof fn lemma_apply_one_skeleton(net: Seq<Transition>, ins: Instruction)
    ensures
        same_skeleton(net, apply_one(net, ins)),
{
}

proof fn lemma_apply_immediates_skeleton(net: Seq<Transition>, ins: Seq<Instruction>)
    ensures
        same_skeleton(net, apply_immediates(net, ins)),
    decreases ins.len(),
{
    if ins.len() > 0 {
        lemma_apply_immediates_skeleton(net, ins.drop_last());
        lemma_apply_one_skeleton(apply_immediates(net, ins.drop_last()), ins.last());
    }
}

/// The firing fold never changes the skeleton of the net.
pub proof fn lemma_fire_from_skeleton(net0: Seq<Transition>, clk: nat, node: Seq<char>, i: int)
    ensures
        same_skeleton(net0, fire_from(net0, clk, node, i).net),
    decreases net0.len() - i,
{
    if 0 <= i < net0.len() {
        lemma_fire_from_skeleton(net0, clk, node, i + 1);
        if is_due(net0[i], clk) {
            lemma_apply_immediates_skeleton(
                fire_from(net0, clk, node, i + 1).net,
                net0[i].immediate_instructions@,
            );
        }
    }
}

/// Viewing a buffer after a push is viewing it and pushing the view.
proof fn lemma_events_view_push(s: Seq<ActiveEvent>, e: ActiveEvent)
    ensures
        events_view(s.push(e)) == events_view(s).push(e@),
{
    assert(events_view(s.push(e)) =~= events_view(s).push(e@));
}

/// Copy an instruction list element by element.
fn copy_instructions(src: &Vec<Instruction>) -> (r: Vec<Instruction>)
    ensures
        r@ == src@,
{
    let mut r: Vec<Instruction> = Vec::new();
    let mut i: usize = 0;
    while i < src.len()
        invariant
            i <= src@.len(),
            r@ == src@.take(i as int),
        decreases src@.len() - i,
    {
        r.push(src[i]);
        proof {
            assert(src@.take(i as int).push(src@[i as int]) =~= src@.take(i as int + 1));
        }
        i = i + 1;
    }
    proof {
        assert(src@.take(src@.len() as int) =~= src@);
    }
    r
}

/// Index of the first transition with this id, if any.
pub(crate) fn find_by_id(net: &Vec<Transition>, id: usize) -> (r: Option<usize>)
    ensures
        ({
            match r {
                Some(j) => j < net@.len() && net@[j as int].id == id && (forall|t: int|
                    0 <= t < j ==> (#[trigger] net@[t]).id != id),
                None => forall|t: int| 0 <= t < net@.len() ==> (#[trigger] net@[t]).id != id,
            }
        }),
{
    let mut j: usize = 0;
    while j < net.len()
        invariant
            j <= net@.len(),
            forall|t: int| 0 <= t < j ==> (#[trigger] net@[t]).id != id,
        decreases net@.len() - j,
    {
        if net[j].id == id {
            return Some(j);
        }
        j = j + 1;
    }
    None
}

/// Apply a list of immediate instructions to the net, in order: each sets
/// the value of the transition whose id it names.
fn apply_immediates_vec(net: &mut Vec<Transition>, instrs: &Vec<Instruction>)
    requires
        unique_ids(old(net)@),
        forall|k: int|
            0 <= k < instrs@.len() ==> net_has_id(
                old(net)@,
                (#[trigger] instrs@[k]).transition_id as nat,
            ),
    ensures
        final(net)@ == apply_immediates(old(net)@, instrs@),
{
    let mut k: usize = 0;
    while k < instrs.len()
        invariant
            k <= instrs@.len(),
            net@ == apply_immediates(old(net)@, instrs@.take(k as int)),
            unique_ids(old(net)@),
            forall|t: int|
                0 <= t < instrs@.len() ==> net_has_id(
                    old(net)@,
                    (#[trigger] instrs@[t]).transition_id as nat,
                ),
        decreases instrs@.len() - k,
    {
        proof {
            lemma_apply_immediates_skeleton(old(net)@, instrs@.take(k as int));
        }
        let ins = instrs[k];
        let ghost nv = net@;
        match find_by_id(net, ins.transition_id) {
            None => {
                proof {
                    let w = choose|w: int|
                        0 <= w < old(net)@.len() && #[trigger] old(net)@[w].id
                            == ins.transition_id as nat;
                    assert(nv[w].id == ins.transition_id);
                    assert(false);
                }
            },
            Some(j) => {
                proof {
                    assert(net_has_id(nv, ins.transition_id as nat));
                    let w = idx_of_id(nv, ins.transition_id as nat);
                    assert forall|a: int, b: int| 0 <= a < b < nv.len() implies (
                    #[trigger] nv[a]).id != (#[trigger] nv[b]).id by {
                        assert(nv[a].id == old(net)@[a].id);
                        assert(nv[b].id == old(net)@[b].id);
                    }
                    assert(w == j as int);
                }
                net[j].value = ins.value;
                proof {
                    assert(net@ =~= apply_one(nv, ins));
                    assert(instrs@.take(k as int + 1).drop_last() =~= instrs@.take(k as int));
                    assert(instrs@.take(k as int + 1).last() == instrs@[k as int]);
                    assert(net@ == apply_immediates(old(net)@, instrs@.take(k as int + 1)));
                }
            },
        }
        k = k + 1;
    }
    proof {
        assert(instrs@.take(instrs@.len() as int) =~= instrs@);
    }
}

/// The standard in-process channel receiver, carried opaquely: what a
/// receive returns depends on the sending thread, so nothing is specified of
/// values inside it.
#[verifier::external_type_specification]
#[verifier::external_body]
#[verifier::reject_recursive_types(T)]
pub struct ExReceiver<T>(std::sync::mpsc::Receiver<T>);

/// The standard in-process channel sender, carried opaquely.
#[verifier::external_type_specification]
#[verifier::external_body]
#[verifier::reject_recursive_types(T)]
pub struct ExSender<T>(std::sync::mpsc::Sender<T>);

/// Relies on std::sync::mpsc::channel: a connected sender/receiver pair.
#[verifier::external_body]
pub fn make_channel() -> (r: (std::sync::mpsc::Sender<String>, std::sync::mpsc::Receiver<String>)) {
    std::sync::mpsc::channel()
}

/// Relies on Receiver::recv: blocks until a message arrives or the channel
/// closes.  Which line arrives depends on the sending peer, so nothing is
/// said of the value.
#[verifier::external_body]
fn recv_line(rx: &std::sync::mpsc::Receiver<String>) -> (r: Option<String>) {
    rx.recv().ok()
}

/// Relies on Receiver::try_recv: a line already queued, if any; never
/// blocks.  Nothing is said of the value.
#[verifier::external_body]
fn try_recv_line(rx: &std::sync::mpsc::Receiver<String>) -> (r: Option<String>) {
    rx.try_recv().ok()
}


/// The character sequences of a list of names.
pub open spec fn names_view(s: Seq<String>) -> Seq<Seq<char>> {
    s.map_values(|n: String| n@)
}

/// The (destination, line) views of a list of deliveries.
pub open spec fn deliveries_view(s: Seq<(String, Vec<u8>)>) -> Seq<(Seq<char>, Seq<u8>)> {
    s.map_values(|d: (String, Vec<u8>)| (d.0@, d.1@))
}

/// The active deliveries of a buffer: each event paired with its target's
/// owner and serialized to its canonical line, in buffer order.
pub open spec fn active_deliveries(ext: Seq<ActiveEventView>, m: Seq<(usize, String)>) -> Seq<
    (Seq<char>, Seq<u8>),
>
    decreases ext.len(),
{
    if ext.len() == 0 {
        Seq::<(Seq<char>, Seq<u8>)>::empty()
    } else {
        let ev = ext.last();
        active_deliveries(ext.drop_last(), m).push(
            (
                owner_of(m, ev.transition_id),
                active_line(bytes_of(ev.feeding_node), ev.transition_id, ev.value, ev.clock),
            ),
        )
    }
}

/// Whether some buffered external event is headed for this node.
pub open spec fn covered(ext: Seq<ActiveEventView>, m: Seq<(usize, String)>, who: Seq<char>) -> bool {
    exists|i: int| 0 <= i < ext.len() && owner_of(m, (#[trigger] ext[i]).transition_id) == who
}

/// The passive deliveries: one per fed node that no active event covers,
/// each carrying the canonical passive line stamped `clk`, in fed order.
pub open spec fn passive_deliveries(
    fed: Seq<Seq<char>>,
    ext: Seq<ActiveEventView>,
    m: Seq<(usize, String)>,
    node: Seq<char>,
    clk: nat,
) -> Seq<(Seq<char>, Seq<u8>)>
    decreases fed.len(),
{
    if fed.len() == 0 {
        Seq::<(Seq<char>, Seq<u8>)>::empty()
    } else {
        let pre = passive_deliveries(fed.drop_last(), ext, m, node, clk);
        if covered(ext, m, fed.last()) {
            pre
        } else {
            pre.push((fed.last(), passive_line(bytes_of(node), clk)))
        }
    }
}

/// All deliveries of one dispatch: the active lines, then the passive ones.
pub open spec fn all_deliveries(
    ext: Seq<ActiveEventView>,
    fed: Seq<Seq<char>>,
    m: Seq<(usize, String)>,
    node: Seq<char>,
    clk: nat,
) -> Seq<(Seq<char>, Seq<u8>)> {
    active_deliveries(ext, m) + passive_deliveries(fed, ext, m, node, clk)
}


/// The net after one internal event lands: the target transition takes the
/// event's clock and value (a target this node does not own is dropped).
pub open spec fn integrate_one(net: Seq<Transition>, ev: ActiveEventView) -> Seq<Transition> {
    if net_has_id(net, ev.transition_id) {
        let j = idx_of_id(net, ev.transition_id);
        net.update(
            j,
            Transition { value: ev.value as isize, clock: ev.clock as usize, ..net[j] },
        )
    } else {
        net
    }
}

/// The net after every buffered event due at `clk` lands, in buffer order.
pub open spec fn integrate_events(net: Seq<Transition>, evs: Seq<ActiveEventView>, clk: nat) -> Seq<
    Transition,
>
    decreases evs.len(),
{
    if evs.len() == 0 {
        net
    } else {
        let pre = integrate_events(net, evs.drop_last(), clk);
        if evs.last().clock == clk {
            integrate_one(pre, evs.last())
        } else {
            pre
        }
    }
}

/// The buffer after the events due at `clk` are dropped, order kept.
pub open spec fn remaining_events(evs: Seq<ActiveEventView>, clk: nat) -> Seq<ActiveEventView>
    decreases evs.len(),
{
    if evs.len() == 0 {
        Seq::<ActiveEventView>::empty()
    } else {
        let pre = remaining_events(evs.drop_last(), clk);
        if evs.last().clock == clk {
            pre
        } else {
            pre.push(evs.last())
        }
    }
}

/// Ids, instruction lists and durations survive event integration; only
/// clocks and values move.
pub open spec fn same_structure(a: Seq<Transition>, b: Seq<Transition>) -> bool {
    &&& a.len() == b.len()
    &&& forall|j: int|
        0 <= j < a.len() ==> {
            &&& (#[trigger] b[j]).id == a[j].id
            &&& b[j].duration == a[j].duration
            &&& b[j].immediate_instructions == a[j].immediate_instructions
            &&& b[j].delayed_instructions == a[j].delayed_instructions
            &&& b[j].is_output == a[j].is_output
        }
}

proof fn lemma_integrate_structure(net: Seq<Transition>, evs: Seq<ActiveEventView>, clk: nat)
    ensures
        same_structure(net, integrate_events(net, evs, clk)),
    decreases evs.len(),
{
    if evs.len() > 0 {
        lemma_integrate_structure(net, evs.drop_last(), clk);
    }
}

/// The smallest element of a sequence of clock values.
pub open spec fn seq_min(s: Seq<nat>) -> nat
    decreases s.len(),
{
    if s.len() == 0 {
        0
    } else if s.len() == 1 {
        s[0]
    } else {
        let m = seq_min(s.drop_last());
        if s.last() < m {
            s.last()
        } else {
            m
        }
    }
}

/// The clocks of a buffer of events, in order.
pub open spec fn event_clocks(evs: Seq<ActiveEventView>) -> Seq<nat> {
    evs.map_values(|e: ActiveEventView| e.clock)
}

/// The clocks the feeding nodes have guaranteed, in order.
pub open spec fn feeding_clocks(fs: Seq<FeedingNode>) -> Seq<nat> {
    fs.map_values(|f: FeedingNode| f.clock as nat)
}

/// The engine clock after a tick: the earliest
/// buffered event's clock, or one step forward when nothing is buffered.
pub open spec fn next_clock(clk: nat, step: nat, evs: Seq<ActiveEventView>) -> nat {
    if evs.len() == 0 {
        clk + step
    } else {
        seq_min(event_clocks(evs))
    }
}

/// The conservative lower bound before a tick: the smallest clock among
/// buffered internal events and feeding-node guarantees, or the engine
/// clock when there is neither.
pub open spec fn earliest_of(clk: nat, evs: Seq<ActiveEventView>, fc: Seq<nat>) -> nat {
    let all = event_clocks(evs) + fc;
    if all.len() == 0 {
        clk
    } else {
        seq_min(all)
    }
}

/// The minimum of a nonempty sequence bounds every element and is attained.
pub proof fn lemma_seq_min(s: Seq<nat>)
    requires
        s.len() > 0,
    ensures
        forall|i: int| 0 <= i < s.len() ==> seq_min(s) <= #[trigger] s[i],
        exists|i: int| 0 <= i < s.len() && #[trigger] s[i] == seq_min(s),
    decreases s.len(),
{
    if s.len() > 1 {
        lemma_seq_min(s.drop_last());
        assert forall|i: int| 0 <= i < s.len() implies seq_min(s) <= #[trigger] s[i] by {
            if i < s.len() - 1 {
                assert(s.drop_last()[i] == s[i]);
            }
        }
        if s.last() < seq_min(s.drop_last()) {
            assert(s[s.len() - 1] == seq_min(s));
        } else {
            let w = choose|i: int|
                0 <= i < s.drop_last().len() && #[trigger] s.drop_last()[i] == seq_min(
                    s.drop_last(),
                );
            assert(s[w] == seq_min(s));
        }
    } else {
        assert(s[0] == seq_min(s));
    }
}

/// Clock monotonicity across one advancement: provided every buffered event
/// carries a clock no earlier than the current one — which conservative
/// peers guarantee — the next clock is no earlier either.
pub proof fn lemma_clock_monotone(clk: nat, step: nat, evs: Seq<ActiveEventView>)
    requires
        forall|i: int| 0 <= i < evs.len() ==> (#[trigger] evs[i]).clock >= clk,
    ensures
        next_clock(clk, step, evs) >= clk,
{
    if evs.len() > 0 {
        lemma_seq_min(event_clocks(evs));
        let w = choose|i: int|
            0 <= i < event_clocks(evs).len() && #[trigger] event_clocks(evs)[i] == seq_min(
                event_clocks(evs),
            );
        assert(event_clocks(evs)[w] == evs[w].clock);
    }
}

/// With an empty internal buffer and every feeding clock at the engine
/// clock, the conservative bound is the engine clock itself and every
/// feeding node sits at it — the tick must block on every inbox.
pub proof fn lemma_blocking_set_full(clk: nat, fc: Seq<nat>)
    requires
        fc.len() > 0,
        forall|i: int| 0 <= i < fc.len() ==> #[trigger] fc[i] == clk,
    ensures
        earliest_of(clk, Seq::<ActiveEventView>::empty(), fc) == clk,
        forall|i: int|
            0 <= i < fc.len() ==> #[trigger] fc[i] == earliest_of(
                clk,
                Seq::<ActiveEventView>::empty(),
                fc,
            ),
{
    let all = event_clocks(Seq::<ActiveEventView>::empty()) + fc;
    assert(all =~= fc);
    lemma_seq_min(all);
    let w = choose|i: int| 0 <= i < all.len() && #[trigger] all[i] == seq_min(all);
    assert(fc[w] == clk);
    assert(seq_min(all) <= all[0]);
}


/// The UTF-8 bytes of a received line.
pub open spec fn line_bytes(l: String) -> Seq<u8> {
    vstd::utf8::encode_utf8(l@)
}

/// The UTF-8 bytes of every received line, in consumption order.
pub open spec fn lines_bytes(ls: Seq<String>) -> Seq<Seq<u8>> {
    ls.map_values(|l: String| line_bytes(l))
}

/// A line the engine accepts: a canonical wire message whose numbers fit
/// the machine's integer types.
pub open spec fn line_ok(s: Seq<u8>) -> bool {
    match parse_wire(s) {
        Some(w) => wire_in_range(w),
        None => false,
    }
}

/// Every line of a batch decodes.
pub open spec fn all_lines_ok(lines: Seq<Seq<u8>>) -> bool {
    forall|i: int| 0 <= i < lines.len() ==> line_ok(#[trigger] lines[i])
}

/// The active events a batch of lines carries, in line order.
pub open spec fn actives_of(lines: Seq<Seq<u8>>) -> Seq<ActiveEventView>
    decreases lines.len(),
{
    if lines.len() == 0 {
        Seq::<ActiveEventView>::empty()
    } else {
        let pre = actives_of(lines.drop_last());
        match parse_wire(lines.last()) {
            Some(WireForm::Active { name, transition_id, value, clock }) => pre.push(
                ActiveEventView { feeding_node: chars_of(name), transition_id, value, clock },
            ),
            _ => pre,
        }
    }
}

/// The guarantee a feeding node named `name` holds after a batch of lines:
/// the clock of the last passive event bearing its name, or `dflt` when the
/// batch carries none.
pub open spec fn passive_clock_of(lines: Seq<Seq<u8>>, name: Seq<char>, dflt: nat) -> nat
    decreases lines.len(),
{
    if lines.len() == 0 {
        dflt
    } else {
        match parse_wire(lines.last()) {
            Some(WireForm::Passive { name: n, clock }) => if chars_of(n) == name {
                clock
            } else {
                passive_clock_of(lines.drop_last(), name, dflt)
            },
            _ => passive_clock_of(lines.drop_last(), name, dflt),
        }
    }
}

/// A peer this node may receive events from: its endpoint, the latest clock
/// it has guaranteed, and the inbox the listener fills with its raw lines.
pub struct FeedingNode {
    pub name: String,
    pub clock: usize,
    pub channel: std::sync::mpsc::Receiver<String>,
}

/// The per-node engine state.  `clock` only moves forward; the external
/// buffer is emptied every iteration; `transition2node` maps every global
/// transition id to its owner's endpoint.
pub struct Engine {
    pub clock: usize,
    pub step: usize,
    pub node: String,
    pub net: Net,
    pub terminal_clock: usize,
    pub fed_nodes: Vec<String>,
    pub feeding_nodes: Vec<FeedingNode>,
    pub transition2node: Vec<(usize, String)>,
    pub internal_active_events: Vec<ActiveEvent>,
    pub external_active_events: Vec<ActiveEvent>,
}

impl Engine {
    /// Structural soundness: unique ids and map keys, instructions that
    /// resolve, and names the wire codec can carry.
    pub open spec fn wf(&self) -> bool {
        &&& unique_ids(self.net.transitions@)
        &&& unique_keys(self.transition2node@)
        &&& net_instructions_wf(self.net.transitions@, self.transition2node@)
        &&& wf_name(self.node@)
        &&& forall|i: int|
            0 <= i < self.external_active_events@.len() ==> wf_name(
                (#[trigger] self.external_active_events@[i]).feeding_node@,
            )
        &&& forall|i: int, j: int|
            0 <= i < j < self.feeding_nodes@.len() ==> (#[trigger] self.feeding_nodes@[i]).name@
                != (#[trigger] self.feeding_nodes@[j]).name@
    }

    /// Phase one of an iteration: fire every transition that was due at the
    /// top of the iteration, in reverse order of appearance.  Immediate
    /// instructions set local token values at once; delayed instructions
    /// become active events stamped `clock + duration`, buffered internally
    /// or externally by their externality flag.
    #[verifier::loop_isolation(false)]
    pub fn fire_due_transitions(&mut self)
        requires
            old(self).wf(),
            forall|j: int|
                0 <= j < old(self).net.transitions@.len() && is_due(
                    #[trigger] old(self).net.transitions@[j],
                    old(self).clock as nat,
                ) ==> old(self).net.transitions@[j].clock + old(self).net.transitions@[j].duration
                    <= usize::MAX,
        ensures
            final(self).wf(),
            ({
                let st = fire_from(
                    old(self).net.transitions@,
                    old(self).clock as nat,
                    old(self).node@,
                    0,
                );
                &&& final(self).net.transitions@ == st.net
                &&& events_view(final(self).internal_active_events@) == events_view(
                    old(self).internal_active_events@,
                ) + st.internal
                &&& events_view(final(self).external_active_events@) == events_view(
                    old(self).external_active_events@,
                ) + st.external
            }),
            final(self).clock == old(self).clock,
            final(self).step == old(self).step,
            final(self).node == old(self).node,
            final(self).terminal_clock == old(self).terminal_clock,
            final(self).fed_nodes == old(self).fed_nodes,
            final(self).feeding_nodes == old(self).feeding_nodes,
            final(self).transition2node == old(self).transition2node,
    {
        let ghost net0 = self.net.transitions@;
        let ghost clkg = self.clock as nat;
        let ghost nodev = self.node@;
        let ghost int0 = events_view(self.internal_active_events@);
        let ghost ext0 = events_view(self.external_active_events@);
        let n = self.net.transitions.len();
        let clk = self.clock;

        // dueness is judged on a snapshot taken before any mutation
        let mut due: Vec<bool> = Vec::new();
        let mut i: usize = 0;
        while i < n
            invariant
                i <= n,
                due@.len() == i,
                self == old(self),
                forall|t: int| 0 <= t < i ==> due@[t] == is_due(net0[t], clkg),
            decreases n - i,
        {
            let d = self.net.transitions[i].clock == clk && self.net.transitions[i].value <= 0;
            due.push(d);
            i = i + 1;
        }

        let mut i = n;
        while i > 0
            invariant
                i <= n,
                self.net.transitions@ == fire_from(net0, clkg, nodev, i as int).net,
                events_view(self.internal_active_events@) == int0 + fire_from(
                    net0,
                    clkg,
                    nodev,
                    i as int,
                ).internal,
                events_view(self.external_active_events@) == ext0 + fire_from(
                    net0,
                    clkg,
                    nodev,
                    i as int,
                ).external,
                forall|t: int|
                    0 <= t < self.external_active_events@.len() ==> wf_name(
                        (#[trigger] self.external_active_events@[t]).feeding_node@,
                    ),
                self.clock == old(self).clock,
                self.step == old(self).step,
                self.node == old(self).node,
                self.terminal_clock == old(self).terminal_clock,
                self.fed_nodes == old(self).fed_nodes,
                self.feeding_nodes == old(self).feeding_nodes,
                self.transition2node == old(self).transition2node,
            decreases i,
        {
            proof {
                lemma_fire_from_skeleton(net0, clkg, nodev, i as int);
            }
            i = i - 1;
            let ghost stv = fire_from(net0, clkg, nodev, i as int + 1);
            if due[i] {
                proof {
                    assert(is_due(net0[i as int], clkg));
                    assert forall|a: int, b: int|
                        0 <= a < b < self.net.transitions@.len() implies (
                    #[trigger] self.net.transitions@[a]).id != (
                    #[trigger] self.net.transitions@[b]).id by {
                        assert(self.net.transitions@[a].id == net0[a].id);
                        assert(self.net.transitions@[b].id == net0[b].id);
                    }
                    assert(self.net.transitions@[i as int].immediate_instructions
                        == net0[i as int].immediate_instructions);
                    assert forall|k: int|
                        0 <= k < self.net.transitions@[i as int].immediate_instructions@.len()
                        implies net_has_id(
                        self.net.transitions@,
                        (#[trigger] self.net.transitions@[
                            i as int
                        ].immediate_instructions@[k]).transition_id as nat,
                    ) by {
                        let tid = net0[i as int].immediate_instructions@[k].transition_id as nat;
                        assert(net_has_id(net0, tid));
                        let w = idx_of_id(net0, tid);
                        assert(self.net.transitions@[w].id == net0[w].id);
                    }
                }
                let instrs = copy_instructions(&self.net.transitions[i].immediate_instructions);
                let ghost pre_net = self.net.transitions@;
                apply_immediates_vec(&mut self.net.transitions, &instrs);
                proof {
                    lemma_apply_immediates_skeleton(pre_net, instrs@);
                }
                let when = {
                    let t_clock = self.net.transitions[i].clock;
                    let t_dur = self.net.transitions[i].duration;
                    proof {
                        assert(t_clock == net0[i as int].clock);
                        assert(t_dur == net0[i as int].duration);
                    }
                    t_clock + t_dur
                };
                let dinstrs = copy_instructions(&self.net.transitions[i].delayed_instructions);
                proof {
                    assert(dinstrs@ == net0[i as int].delayed_instructions@);
                }
                let ghost base_int = events_view(self.internal_active_events@);
                let ghost base_ext = events_view(self.external_active_events@);
                let mut k: usize = 0;
                while k < dinstrs.len()
                    invariant
                        k <= dinstrs@.len(),
                        self.net.transitions@ == apply_immediates(
                            stv.net,
                            net0[i as int].immediate_instructions@,
                        ),
                        events_view(self.internal_active_events@) == base_int + route_delayed(
                            dinstrs@.take(k as int),
                            nodev,
                            when as nat,
                        ).0,
                        events_view(self.external_active_events@) == base_ext + route_delayed(
                            dinstrs@.take(k as int),
                            nodev,
                            when as nat,
                        ).1,
                        forall|t: int|
                            0 <= t < self.external_active_events@.len() ==> wf_name(
                                (#[trigger] self.external_active_events@[t]).feeding_node@,
                            ),
                        self.clock == old(self).clock,
                        self.step == old(self).step,
                        self.node == old(self).node,
                        self.terminal_clock == old(self).terminal_clock,
                        self.fed_nodes == old(self).fed_nodes,
                        self.feeding_nodes == old(self).feeding_nodes,
                        self.transition2node == old(self).transition2node,
                    decreases dinstrs@.len() - k,
                {
                    let ins = dinstrs[k];
                    let name = self.node.clone();
                    let ev = ActiveEvent {
                        feeding_node: name,
                        transition_id: ins.transition_id,
                        value: ins.value,
                        clock: when,
                    };
                    let ghost evv = ActiveEventView {
                        feeding_node: nodev,
                        transition_id: ins.transition_id as nat,
                        value: ins.value as int,
                        clock: when as nat,
                    };
                    proof {
                        assert(ev@ == evv);
                        assert(dinstrs@.take(k as int + 1).drop_last() =~= dinstrs@.take(k as int));
                        assert(dinstrs@.take(k as int + 1).last() == dinstrs@[k as int]);
                    }
                    if ins.is_external {
                        let ghost bufe = self.external_active_events@;
                        self.external_active_events.push(ev);
                        proof {
                            lemma_events_view_push(bufe, ev);
                            assert(route_delayed(dinstrs@.take(k as int + 1), nodev, when as nat).1
                                == route_delayed(
                                dinstrs@.take(k as int),
                                nodev,
                                when as nat,
                            ).1.push(evv));
                            assert(events_view(self.external_active_events@) =~= base_ext
                                + route_delayed(
                                dinstrs@.take(k as int + 1),
                                nodev,
                                when as nat,
                            ).1);
                            assert(route_delayed(dinstrs@.take(k as int + 1), nodev, when as nat).0
                                == route_delayed(dinstrs@.take(k as int), nodev, when as nat).0);
                        }
                    } else {
                        let ghost bufi = self.internal_active_events@;
                        self.internal_active_events.push(ev);
                        proof {
                            lemma_events_view_push(bufi, ev);
                            assert(route_delayed(dinstrs@.take(k as int + 1), nodev, when as nat).0
                                == route_delayed(
                                dinstrs@.take(k as int),
                                nodev,
                                when as nat,
                            ).0.push(evv));
                            assert(events_view(self.internal_active_events@) =~= base_int
                                + route_delayed(
                                dinstrs@.take(k as int + 1),
                                nodev,
                                when as nat,
                            ).0);
                            assert(route_delayed(dinstrs@.take(k as int + 1), nodev, when as nat).1
                                == route_delayed(dinstrs@.take(k as int), nodev, when as nat).1);
                        }
                    }
                    k = k + 1;
                }
                proof {
                    assert(dinstrs@.take(dinstrs@.len() as int) =~= dinstrs@);
                    let (ints, exts) = route_delayed(
                        net0[i as int].delayed_instructions@,
                        nodev,
                        (net0[i as int].clock + net0[i as int].duration) as nat,
                    );
                    assert(events_view(self.internal_active_events@) =~= int0 + (stv.internal
                        + ints));
                    assert(events_view(self.external_active_events@) =~= ext0 + (stv.external
                        + exts));
                    assert(fire_from(net0, clkg, nodev, i as int) == fire_one(
                        net0,
                        clkg,
                        nodev,
                        stv,
                        i as int,
                    ));
                }
            } else {
                proof {
                    assert(!is_due(net0[i as int], clkg));
                    assert(fire_from(net0, clkg, nodev, i as int) == stv);
                }
            }
        }
        proof {
            lemma_fire_from_skeleton(net0, clkg, nodev, 0);
            assert forall|a: int, b: int|
                0 <= a < b < self.net.transitions@.len() implies (
            #[trigger] self.net.transitions@[a]).id != (#[trigger] self.net.transitions@[b]).id by {
                assert(self.net.transitions@[a].id == net0[a].id);
                assert(self.net.transitions@[b].id == net0[b].id);
            }
            assert forall|a: int, k: int|
                0 <= a < self.net.transitions@.len() && 0 <= k < self.net.transitions@[
                a
            ].immediate_instructions@.len() implies {
                let ins = #[trigger] self.net.transitions@[a].immediate_instructions@[k];
                &&& !ins.is_external
                &&& net_has_id(self.net.transitions@, ins.transition_id as nat)
            } by {
                assert(self.net.transitions@[a].immediate_instructions
                    == net0[a].immediate_instructions);
                let ins = net0[a].immediate_instructions@[k];
                assert(!ins.is_external);
                assert(net_has_id(net0, ins.transition_id as nat));
                let w = idx_of_id(net0, ins.transition_id as nat);
                assert(self.net.transitions@[w].id == net0[w].id);
            }
            assert forall|a: int, k: int|
                0 <= a < self.net.transitions@.len() && 0 <= k < self.net.transitions@[
                a
            ].delayed_instructions@.len() implies map_has(
                self.transition2node@,
                (#[trigger] self.net.transitions@[a].delayed_instructions@[k]).transition_id
                    as nat,
            ) by {
                assert(self.net.transitions@[a].delayed_instructions
                    == net0[a].delayed_instructions);
            }
        }
    }

    /// Phase two of an iteration: turn the external buffer into deliveries.
    /// Every buffered event goes, as its canonical line, to the owner of its
    /// target transition; every fed node that no event covers gets a passive
    /// line promising silence before `clock + step`.  The external buffer is
    /// empty afterwards.
    #[verifier::loop_isolation(false)]
    pub fn handle_external_events(&mut self) -> (r: Vec<(String, Vec<u8>)>)
        requires
            old(self).wf(),
            old(self).clock + old(self).step <= usize::MAX,
            forall|i: int|
                0 <= i < old(self).external_active_events@.len() ==> map_has(
                    old(self).transition2node@,
                    (#[trigger] old(self).external_active_events@[i]).transition_id as nat,
                ),
        ensures
            final(self).wf(),
            final(self).external_active_events@.len() == 0,
            deliveries_view(r@) == all_deliveries(
                events_view(old(self).external_active_events@),
                names_view(old(self).fed_nodes@),
                old(self).transition2node@,
                old(self).node@,
                (old(self).clock + old(self).step) as nat,
            ),
            final(self).clock == old(self).clock,
            final(self).step == old(self).step,
            final(self).node == old(self).node,
            final(self).net == old(self).net,
            final(self).terminal_clock == old(self).terminal_clock,
            final(self).fed_nodes == old(self).fed_nodes,
            final(self).feeding_nodes == old(self).feeding_nodes,
            final(self).transition2node == old(self).transition2node,
            final(self).internal_active_events == old(self).internal_active_events,
    {
        let ghost extv = events_view(self.external_active_events@);
        let ghost fedv = names_view(self.fed_nodes@);
        let ghost mv = self.transition2node@;
        let ghost nodev = self.node@;
        let stamp = self.clock + self.step;
        let ghost clkg = stamp as nat;
        let mut r: Vec<(String, Vec<u8>)> = Vec::new();

        let mut i: usize = 0;
        while i < self.external_active_events.len()
            invariant
                i <= self.external_active_events@.len(),
                self == old(self),
                deliveries_view(r@) == active_deliveries(extv.take(i as int), mv),
            decreases self.external_active_events@.len() - i,
        {
            let ev = &self.external_active_events[i];
            let dest = lookup_owner(&self.transition2node, ev.transition_id);
            let line = serialize_active(ev);
            let ghost rpre = r@;
            r.push((dest, line));
            proof {
                assert(extv.take(i as int + 1).drop_last() =~= extv.take(i as int));
                assert(extv.take(i as int + 1).last() == self.external_active_events@[i as int]@);
                assert(deliveries_view(r@) =~= deliveries_view(rpre).push(
                    (dest@, line@),
                ));
                assert(deliveries_view(r@) =~= active_deliveries(extv.take(i as int + 1), mv));
            }
            i = i + 1;
        }
        proof {
            assert(extv.take(extv.len() as int) =~= extv);
        }

        let mut j: usize = 0;
        while j < self.fed_nodes.len()
            invariant
                j <= self.fed_nodes@.len(),
                self == old(self),
                deliveries_view(r@) == active_deliveries(extv, mv) + passive_deliveries(
                    fedv.take(j as int),
                    extv,
                    mv,
                    nodev,
                    clkg,
                ),
            decreases self.fed_nodes@.len() - j,
        {
            let fed = &self.fed_nodes[j];
            let cov = self.destination_covered(fed);
            proof {
                assert(fedv.take(j as int + 1).drop_last() =~= fedv.take(j as int));
                assert(fedv.take(j as int + 1).last() == fedv[j as int]);
            }
            if !cov {
                let name = self.node.clone();
                let pe = PassiveEvent { feeding_node: name, clock: stamp };
                let line = serialize_passive(&pe);
                let ghost rpre = r@;
                r.push((fed.clone(), line));
                proof {
                    assert(deliveries_view(r@) =~= deliveries_view(rpre).push(
                        (fedv[j as int], line@),
                    ));
                    assert(deliveries_view(r@) =~= active_deliveries(extv, mv)
                        + passive_deliveries(fedv.take(j as int + 1), extv, mv, nodev, clkg));
                }
            } else {
                proof {
                    assert(deliveries_view(r@) =~= active_deliveries(extv, mv)
                        + passive_deliveries(fedv.take(j as int + 1), extv, mv, nodev, clkg));
                }
            }
            j = j + 1;
        }
        proof {
            assert(fedv.take(fedv.len() as int) =~= fedv);
        }
        self.external_active_events.clear();
        r
    }

    /// Whether some buffered external event is destined for `who`.
    #[verifier::loop_isolation(false)]
    fn destination_covered(&self, who: &String) -> (r: bool)
        requires
            self.wf(),
            forall|i: int|
                0 <= i < self.external_active_events@.len() ==> map_has(
                    self.transition2node@,
                    (#[trigger] self.external_active_events@[i]).transition_id as nat,
                ),
        ensures
            r == covered(
                events_view(self.external_active_events@),
                self.transition2node@,
                who@,
            ),
    {
        let ghost extv = events_view(self.external_active_events@);
        let mut i: usize = 0;
        while i < self.external_active_events.len()
            invariant
                i <= self.external_active_events@.len(),
                forall|t: int|
                    0 <= t < i ==> owner_of(
                        self.transition2node@,
                        (#[trigger] extv[t]).transition_id,
                    ) != who@,
                self.wf(),
                forall|t: int|
                    0 <= t < self.external_active_events@.len() ==> map_has(
                        self.transition2node@,
                        (#[trigger] self.external_active_events@[t]).transition_id as nat,
                    ),
            decreases self.external_active_events@.len() - i,
        {
            proof {
                assert(extv[i as int] == self.external_active_events@[i as int]@);
            }
            let dest = lookup_owner(
                &self.transition2node,
                self.external_active_events[i].transition_id,
            );
            if dest.eq(who) {
                proof {
                    assert(owner_of(self.transition2node@, extv[i as int].transition_id) == who@);
                }
                return true;
            }
            i = i + 1;
        }
        proof {
            assert(forall|t: int|
                0 <= t < extv.len() ==> owner_of(
                    self.transition2node@,
                    (#[trigger] extv[t]).transition_id,
                ) != who@);
        }
        false
    }

    /// Phase four of an iteration: land every buffered internal event whose
    /// clock equals the engine clock on its target transition (clock and
    /// value), then drop exactly those events.  No event due now remains
    /// buffered afterwards.
    #[verifier::loop_isolation(false)]
    pub fn handle_internal_events(&mut self)
        requires
            old(self).wf(),
        ensures
            final(self).wf(),
            final(self).net.transitions@ == integrate_events(
                old(self).net.transitions@,
                events_view(old(self).internal_active_events@),
                old(self).clock as nat,
            ),
            events_view(final(self).internal_active_events@) == remaining_events(
                events_view(old(self).internal_active_events@),
                old(self).clock as nat,
            ),
            forall|i: int|
                0 <= i < final(self).internal_active_events@.len() ==> (
                #[trigger] final(self).internal_active_events@[i]).clock != final(self).clock,
            final(self).clock == old(self).clock,
            final(self).step == old(self).step,
            final(self).node == old(self).node,
            final(self).terminal_clock == old(self).terminal_clock,
            final(self).fed_nodes == old(self).fed_nodes,
            final(self).feeding_nodes == old(self).feeding_nodes,
            final(self).transition2node == old(self).transition2node,
            final(self).external_active_events == old(self).external_active_events,
    {
        let ghost net0 = self.net.transitions@;
        let ghost evs0 = events_view(self.internal_active_events@);
        let ghost clkg = self.clock as nat;
        let clk = self.clock;

        let mut i: usize = 0;
        while i < self.internal_active_events.len()
            invariant
                i <= self.internal_active_events@.len(),
                self.internal_active_events == old(self).internal_active_events,
                self.net.transitions@ == integrate_events(net0, evs0.take(i as int), clkg),
                self.clock == old(self).clock,
                self.step == old(self).step,
                self.node == old(self).node,
                self.terminal_clock == old(self).terminal_clock,
                self.fed_nodes == old(self).fed_nodes,
                self.feeding_nodes == old(self).feeding_nodes,
                self.transition2node == old(self).transition2node,
                self.external_active_events == old(self).external_active_events,
            decreases self.internal_active_events@.len() - i,
        {
            proof {
                lemma_integrate_structure(net0, evs0.take(i as int), clkg);
                assert(evs0.take(i as int + 1).drop_last() =~= evs0.take(i as int));
                assert(evs0.take(i as int + 1).last() == evs0[i as int]);
                assert(evs0[i as int] == self.internal_active_events@[i as int]@);
            }
            let ev_tid = self.internal_active_events[i].transition_id;
            let ev_clock = self.internal_active_events[i].clock;
            let ev_value = self.internal_active_events[i].value;
            let ghost pre = self.net.transitions@;
            if ev_clock == clk {
                match find_by_id(&self.net.transitions, ev_tid) {
                    Some(j) => {
                        proof {
                            assert(net_has_id(pre, ev_tid as nat));
                            let w = idx_of_id(pre, ev_tid as nat);
                            assert forall|a: int, b: int| 0 <= a < b < pre.len() implies (
                            #[trigger] pre[a]).id != (#[trigger] pre[b]).id by {
                                assert(pre[a].id == net0[a].id);
                                assert(pre[b].id == net0[b].id);
                            }
                            assert(w == j as int);
                        }
                        self.net.transitions[j].clock = ev_clock;
                        self.net.transitions[j].value = ev_value;
                        proof {
                            assert(self.net.transitions@ =~= integrate_one(
                                pre,
                                evs0[i as int],
                            ));
                        }
                    },
                    None => {
                        proof {
                            assert(!net_has_id(pre, ev_tid as nat)) by {
                                if net_has_id(pre, ev_tid as nat) {
                                    let w = idx_of_id(pre, ev_tid as nat);
                                    assert(pre[w].id == ev_tid);
                                }
                            }
                            assert(self.net.transitions@ == integrate_one(pre, evs0[i as int]));
                        }
                    },
                }
            }
            i = i + 1;
        }
        proof {
            assert(evs0.take(evs0.len() as int) =~= evs0);
        }

        // drop the events that just landed, keeping the order of the rest
        let mut kept: Vec<ActiveEvent> = Vec::new();
        let mut i: usize = 0;
        while i < self.internal_active_events.len()
            invariant
                i <= self.internal_active_events@.len(),
                self.internal_active_events == old(self).internal_active_events,
                events_view(kept@) == remaining_events(evs0.take(i as int), clkg),
                forall|t: int|
                    0 <= t < kept@.len() ==> (#[trigger] kept@[t]).clock != clk,
            decreases self.internal_active_events@.len() - i,
        {
            proof {
                assert(evs0.take(i as int + 1).drop_last() =~= evs0.take(i as int));
                assert(evs0.take(i as int + 1).last() == evs0[i as int]);
                assert(evs0[i as int] == self.internal_active_events@[i as int]@);
            }
            let ev = &self.internal_active_events[i];
            if ev.clock != clk {
                let ghost keptv = kept@;
                let copy = ActiveEvent {
                    feeding_node: ev.feeding_node.clone(),
                    transition_id: ev.transition_id,
                    value: ev.value,
                    clock: ev.clock,
                };
                proof {
                    assert(copy == self.internal_active_events@[i as int]);
                }
                kept.push(copy);
                proof {
                    lemma_events_view_push(keptv, copy);
                    assert(events_view(kept@) =~= remaining_events(
                        evs0.take(i as int + 1),
                        clkg,
                    ));
                }
            }
            i = i + 1;
        }
        proof {
            assert(evs0.take(evs0.len() as int) =~= evs0);
        }
        self.internal_active_events = kept;
        proof {
            lemma_integrate_structure(net0, evs0, clkg);
            let cur = self.net.transitions@;
            assert forall|a: int, b: int| 0 <= a < b < cur.len() implies (#[trigger] cur[a]).id
                != (#[trigger] cur[b]).id by {
                assert(cur[a].id == net0[a].id);
                assert(cur[b].id == net0[b].id);
            }
            assert forall|a: int, k: int|
                0 <= a < cur.len() && 0 <= k < cur[a].immediate_instructions@.len() implies {
                let ins = #[trigger] cur[a].immediate_instructions@[k];
                &&& !ins.is_external
                &&& net_has_id(cur, ins.transition_id as nat)
            } by {
                assert(cur[a].immediate_instructions == net0[a].immediate_instructions);
                let ins = net0[a].immediate_instructions@[k];
                assert(!ins.is_external);
                assert(net_has_id(net0, ins.transition_id as nat));
                let w = idx_of_id(net0, ins.transition_id as nat);
                assert(cur[w].id == net0[w].id);
            }
            assert forall|a: int, k: int|
                0 <= a < cur.len() && 0 <= k < cur[a].delayed_instructions@.len() implies map_has(
                self.transition2node@,
                (#[trigger] cur[a].delayed_instructions@[k]).transition_id as nat,
            ) by {
                assert(cur[a].delayed_instructions == net0[a].delayed_instructions);
            }
        }
    }

    /// The conservative lower bound a tick starts from: the smallest clock
    /// among buffered internal events and feeding-node guarantees, or the
    /// engine clock when there is neither.
    #[verifier::loop_isolation(false)]
    pub fn earliest_bound(&self) -> (r: usize)
        ensures
            r as nat == earliest_of(
                self.clock as nat,
                events_view(self.internal_active_events@),
                feeding_clocks(self.feeding_nodes@),
            ),
    {
        let ghost evs = events_view(self.internal_active_events@);
        let ghost fc = feeding_clocks(self.feeding_nodes@);
        let ghost all = event_clocks(evs) + fc;
        let mut have: bool = false;
        let mut m: usize = 0;
        let mut i: usize = 0;
        proof {
            assert(event_clocks(evs).len() == self.internal_active_events@.len());
        }
        while i < self.internal_active_events.len()
            invariant
                i <= self.internal_active_events@.len(),
                have == (i > 0),
                have ==> m as nat == seq_min(all.take(i as int)),
            decreases self.internal_active_events@.len() - i,
        {
            proof {
                assert(all.take(i as int + 1).drop_last() =~= all.take(i as int));
                assert(all[i as int] == event_clocks(evs)[i as int]);
                assert(event_clocks(evs)[i as int] == evs[i as int].clock);
                assert(evs[i as int] == self.internal_active_events@[i as int]@);
            }
            let c = self.internal_active_events[i].clock;
            if !have || c < m {
                m = c;
            }
            have = true;
            i = i + 1;
        }
        let ghost n0 = self.internal_active_events@.len() as int;
        let mut j: usize = 0;
        while j < self.feeding_nodes.len()
            invariant
                j <= self.feeding_nodes@.len(),
                have == (n0 + j > 0),
                have ==> m as nat == seq_min(all.take(n0 + j)),
            decreases self.feeding_nodes@.len() - j,
        {
            proof {
                assert(all.take(n0 + j + 1).drop_last() =~= all.take(n0 + j));
                assert(all[n0 + j] == fc[j as int]);
                assert(fc[j as int] == self.feeding_nodes@[j as int].clock as nat);
            }
            let c = self.feeding_nodes[j].clock;
            if !have || c < m {
                m = c;
            }
            have = true;
            j = j + 1;
        }
        proof {
            assert(all.take(all.len() as int) =~= all);
        }
        if have {
            m
        } else {
            self.clock
        }
    }

    /// Step four of a tick: land a batch of received lines on the engine
    /// state.  Each line must be a canonical wire message; the fatal decode
    /// error is returned exactly when some line is not.  The batch's active
    /// events join the internal buffer in line order, and each feeding
    /// node's guarantee becomes the clock of the last passive event bearing
    /// its name (a name the batch never mentions keeps its guarantee; a
    /// passive event from an unknown name is dropped).
    #[verifier::loop_isolation(false)]
    #[verifier::rlimit(100)]
    #[verifier::spinoff_prover]
    pub fn integrate_lines(&mut self, lines: &Vec<String>) -> (r: Result<(), AppError>)
        requires
            old(self).wf(),
        ensures
            final(self).wf(),
            final(self).net == old(self).net,
            final(self).clock == old(self).clock,
            final(self).step == old(self).step,
            final(self).node == old(self).node,
            final(self).terminal_clock == old(self).terminal_clock,
            final(self).fed_nodes == old(self).fed_nodes,
            final(self).transition2node == old(self).transition2node,
            final(self).external_active_events == old(self).external_active_events,
            final(self).feeding_nodes@.len() == old(self).feeding_nodes@.len(),
            forall|i: int|
                0 <= i < final(self).feeding_nodes@.len() ==> (
                #[trigger] final(self).feeding_nodes@[i]).name == old(self).feeding_nodes@[i].name,
            final(self).internal_active_events@.len() >= old(self).internal_active_events@.len(),
            forall|i: int|
                0 <= i < old(self).internal_active_events@.len() ==> (
                #[trigger] final(self).internal_active_events@[i]) == old(
                    self,
                ).internal_active_events@[i],
            r is Ok <==> all_lines_ok(lines_bytes(lines@)),
            r matches Err(e) ==> e == AppError::Decode,
            r is Ok ==> events_view(final(self).internal_active_events@) == events_view(
                old(self).internal_active_events@,
            ) + actives_of(lines_bytes(lines@)),
            r is Ok ==> forall|i: int|
                0 <= i < final(self).feeding_nodes@.len() ==> (
                #[trigger] final(self).feeding_nodes@[i]).clock as nat == passive_clock_of(
                    lines_bytes(lines@),
                    old(self).feeding_nodes@[i].name@,
                    old(self).feeding_nodes@[i].clock as nat,
                ),
            lines@.len() == 0 ==> *final(self) == *old(self) && r is Ok,
    {
        let ghost lb = lines_bytes(lines@);
        let ghost int0 = events_view(self.internal_active_events@);
        let mut k: usize = 0;
        while k < lines.len()
            invariant
                k <= lines@.len(),
                lines@.len() == 0 ==> self == old(self),
                forall|t: int| 0 <= t < k ==> line_ok(#[trigger] lb[t]),
                events_view(self.internal_active_events@) == int0 + actives_of(
                    lb.take(k as int),
                ),
                forall|i: int|
                    0 <= i < self.feeding_nodes@.len() ==> (
                    #[trigger] self.feeding_nodes@[i]).clock as nat == passive_clock_of(
                        lb.take(k as int),
                        old(self).feeding_nodes@[i].name@,
                        old(self).feeding_nodes@[i].clock as nat,
                    ),
                self.net == old(self).net,
                self.clock == old(self).clock,
                self.step == old(self).step,
                self.node == old(self).node,
                self.terminal_clock == old(self).terminal_clock,
                self.fed_nodes == old(self).fed_nodes,
                self.transition2node == old(self).transition2node,
                self.external_active_events == old(self).external_active_events,
                self.feeding_nodes@.len() == old(self).feeding_nodes@.len(),
                forall|i: int|
                    0 <= i < self.feeding_nodes@.len() ==> (
                    #[trigger] self.feeding_nodes@[i]).name == old(self).feeding_nodes@[i].name,
                self.internal_active_events@.len() >= old(self).internal_active_events@.len(),
                forall|i: int|
                    0 <= i < old(self).internal_active_events@.len() ==> (
                    #[trigger] self.internal_active_events@[i]) == old(
                        self,
                    ).internal_active_events@[i],
            decreases lines@.len() - k,
        {
            proof {
                assert(lb.take(k as int + 1).drop_last() =~= lb.take(k as int));
                assert(lb.take(k as int + 1).last() == lb[k as int]);
                assert(lb[k as int] == line_bytes(lines@[k as int]));
            }
            let line_s = lines[k].as_str();
            proof {
                assert(line_s.spec_bytes() == line_bytes(lines@[k as int]));
            }
            match crate::codec::parse_event(line_s) {
                None => {
                    proof {
                        assert(!line_ok(lb[k as int]));
                        assert(!all_lines_ok(lb));
                    }
                    return Err(AppError::Decode);
                },
                Some(crate::model::Event::Active(a)) => {
                    let ghost bufpre = self.internal_active_events@;
                    self.internal_active_events.push(a);
                    proof {
                        lemma_events_view_push(bufpre, a);
                        let w = choose|w: WireForm| parse_wire(lb[k as int]) == Some(w);
                        assert(parse_wire(lb[k as int]) == Some(w));
                        assert(w is Active);
                        assert(a@ == ActiveEventView {
                            feeding_node: chars_of(w->Active_name),
                            transition_id: w->Active_transition_id,
                            value: w->Active_value,
                            clock: w->Active_clock,
                        });
                        assert(actives_of(lb.take(k as int + 1)) == actives_of(
                            lb.take(k as int),
                        ).push(a@));
                        assert(events_view(self.internal_active_events@) =~= int0 + actives_of(
                            lb.take(k as int + 1),
                        ));
                        assert forall|i: int|
                            0 <= i < self.feeding_nodes@.len() implies (
                        #[trigger] self.feeding_nodes@[i]).clock as nat == passive_clock_of(
                            lb.take(k as int + 1),
                            old(self).feeding_nodes@[i].name@,
                            old(self).feeding_nodes@[i].clock as nat,
                        ) by {
                            assert(passive_clock_of(
                                lb.take(k as int + 1),
                                old(self).feeding_nodes@[i].name@,
                                old(self).feeding_nodes@[i].clock as nat,
                            ) == passive_clock_of(
                                lb.take(k as int),
                                old(self).feeding_nodes@[i].name@,
                                old(self).feeding_nodes@[i].clock as nat,
                            ));
                        }
                    }
                },
                Some(crate::model::Event::Passive(p)) => {
                    let ghost w = choose|w: WireForm| parse_wire(lb[k as int]) == Some(w);
                    proof {
                        assert(parse_wire(lb[k as int]) == Some(w));
                        assert(w is Passive);
                        assert(p.feeding_node@ == chars_of(w->Passive_name));
                        assert(p.clock as nat == w->Passive_clock);
                    }
                    let ghost fpre = self.feeding_nodes@;
                    match find_feeding(&self.feeding_nodes, &p.feeding_node) {
                        Some(f) => {
                            self.feeding_nodes[f].clock = p.clock;
                            proof {
                                assert forall|i: int|
                                    0 <= i < self.feeding_nodes@.len() implies (
                                #[trigger] self.feeding_nodes@[i]).clock as nat
                                    == passive_clock_of(
                                    lb.take(k as int + 1),
                                    old(self).feeding_nodes@[i].name@,
                                    old(self).feeding_nodes@[i].clock as nat,
                                ) by {
                                    let nm = old(self).feeding_nodes@[i].name@;
                                    if i == f as int {
                                        assert(nm == fpre[i].name@);
                                        assert(nm == chars_of(w->Passive_name));
                                        assert(self.feeding_nodes@[i].clock == p.clock);
                                    } else {
                                        assert(self.feeding_nodes@[i] == fpre[i]);
                                        assert(fpre[f as int].name@ == p.feeding_node@);
                                        assert(fpre[i].name@ != fpre[f as int].name@) by {
                                            assert(fpre[i].name@ == old(
                                                self,
                                            ).feeding_nodes@[i].name@);
                                            assert(fpre[f as int].name@ == old(
                                                self,
                                            ).feeding_nodes@[f as int].name@);
                                        }
                                        assert(nm != chars_of(w->Passive_name));
                                    }
                                }
                            }
                        },
                        None => {
                            proof {
                                assert forall|i: int|
                                    0 <= i < self.feeding_nodes@.len() implies (
                                #[trigger] self.feeding_nodes@[i]).clock as nat
                                    == passive_clock_of(
                                    lb.take(k as int + 1),
                                    old(self).feeding_nodes@[i].name@,
                                    old(self).feeding_nodes@[i].clock as nat,
                                ) by {
                                    let nm = old(self).feeding_nodes@[i].name@;
                                    assert(fpre[i].name@ != p.feeding_node@);
                                    assert(nm != chars_of(w->Passive_name));
                                }
                            }
                        },
                    }
                    proof {
                        assert(actives_of(lb.take(k as int + 1)) == actives_of(lb.take(k as int)));
                        assert(events_view(self.internal_active_events@) == int0 + actives_of(
                            lb.take(k as int + 1),
                        ));
                    }
                },
            }
            k = k + 1;
        }
        proof {
            assert(lb.take(lb.len() as int) =~= lb);
            assert forall|i: int, j: int|
                0 <= i < j < self.feeding_nodes@.len() implies (
            #[trigger] self.feeding_nodes@[i]).name@ != (
            #[trigger] self.feeding_nodes@[j]).name@ by {
                assert(self.feeding_nodes@[i].name == old(self).feeding_nodes@[i].name);
                assert(self.feeding_nodes@[j].name == old(self).feeding_nodes@[j].name);
            }
        }
        Ok(())
    }

    /// Phase three of an iteration: advance the clock under the
    /// conservative rule.  One blocking receive is performed on every
    /// feeding node whose guarantee sits at the lower bound — the engine's
    /// only suspension point — then one already-queued line per feeding
    /// node is taken without blocking.  Received active events join the
    /// internal buffer; received passive events raise the matching feeding
    /// node's guarantee.  The clock then becomes the earliest buffered
    /// event's clock, or moves one step when nothing is buffered.  A closed
    /// inbox or an undecodable line is fatal.
    #[verifier::loop_isolation(false)]
    pub fn tick(&mut self) -> (r: Result<(), AppError>)
        requires
            old(self).wf(),
            old(self).clock + old(self).step <= usize::MAX,
        ensures
            final(self).wf(),
            final(self).net == old(self).net,
            final(self).step == old(self).step,
            final(self).node == old(self).node,
            final(self).terminal_clock == old(self).terminal_clock,
            final(self).fed_nodes == old(self).fed_nodes,
            final(self).transition2node == old(self).transition2node,
            final(self).external_active_events == old(self).external_active_events,
            final(self).feeding_nodes@.len() == old(self).feeding_nodes@.len(),
            forall|i: int|
                0 <= i < final(self).feeding_nodes@.len() ==> (
                #[trigger] final(self).feeding_nodes@[i]).name == old(self).feeding_nodes@[i].name,
            final(self).internal_active_events@.len() >= old(self).internal_active_events@.len(),
            forall|i: int|
                0 <= i < old(self).internal_active_events@.len() ==> (
                #[trigger] final(self).internal_active_events@[i]) == old(
                    self,
                ).internal_active_events@[i],
            r is Ok ==> final(self).clock as nat == next_clock(
                old(self).clock as nat,
                old(self).step as nat,
                events_view(final(self).internal_active_events@),
            ),
            r is Err ==> final(self).clock == old(self).clock,
            r is Err ==> (r matches Err(e) && (e == AppError::ChannelClosed || e
                == AppError::Decode)),
            old(self).feeding_nodes@.len() == 0 ==> r is Ok && final(self).internal_active_events
                == old(self).internal_active_events && final(self).feeding_nodes == old(
                self,
            ).feeding_nodes && final(self).clock as nat == next_clock(
                old(self).clock as nat,
                old(self).step as nat,
                events_view(old(self).internal_active_events@),
            ),
            r is Ok ==> exists|ls: Seq<Seq<u8>>|
                #![auto]
                {
                    &&& all_lines_ok(ls)
                    &&& events_view(final(self).internal_active_events@) == events_view(
                        old(self).internal_active_events@,
                    ) + actives_of(ls)
                    &&& forall|i: int|
                        0 <= i < final(self).feeding_nodes@.len() ==> (
                        #[trigger] final(self).feeding_nodes@[i]).clock as nat == passive_clock_of(
                            ls,
                            old(self).feeding_nodes@[i].name@,
                            old(self).feeding_nodes@[i].clock as nat,
                        )
                },
    {
        let earliest = self.earliest_bound();

        // blocking phase: learn one fresh guarantee from every feeding node
        // sitting at the lower bound
        let mut lines: Vec<String> = Vec::new();
        let mut j: usize = 0;
        while j < self.feeding_nodes.len()
            invariant
                j <= self.feeding_nodes@.len(),
                self == old(self),
                self.feeding_nodes@.len() == 0 ==> lines@.len() == 0,
            decreases self.feeding_nodes@.len() - j,
        {
            if self.feeding_nodes[j].clock == earliest {
                match recv_line(&self.feeding_nodes[j].channel) {
                    Some(l) => lines.push(l),
                    None => {
                        return Err(AppError::ChannelClosed);
                    },
                }
            }
            j = j + 1;
        }

        // drain phase: take one already-queued line per feeding node
        let mut j: usize = 0;
        while j < self.feeding_nodes.len()
            invariant
                j <= self.feeding_nodes@.len(),
                self == old(self),
                self.feeding_nodes@.len() == 0 ==> lines@.len() == 0,
            decreases self.feeding_nodes@.len() - j,
        {
            match try_recv_line(&self.feeding_nodes[j].channel) {
                Some(l) => lines.push(l),
                None => {},
            }
            j = j + 1;
        }

        // integration (step four), as its own verified function
        match self.integrate_lines(&lines) {
            Ok(()) => {},
            Err(e) => {
                return Err(e);
            },
        }
        proof {
            assert(all_lines_ok(lines_bytes(lines@)));
        }

        // advancement: earliest buffered event, or one step forward
        if self.internal_active_events.len() == 0 {
            self.clock = self.clock + self.step;
        } else {
            let ghost evs = events_view(self.internal_active_events@);
            let mut m: usize = self.internal_active_events[0].clock;
            let mut i: usize = 1;
            proof {
                assert(evs[0] == self.internal_active_events@[0]@);
                assert(event_clocks(evs).take(1) =~= seq![evs[0].clock]);
            }
            while i < self.internal_active_events.len()
                invariant
                    1 <= i <= self.internal_active_events@.len(),
                    evs == events_view(self.internal_active_events@),
                    m as nat == seq_min(event_clocks(evs).take(i as int)),
                decreases self.internal_active_events@.len() - i,
            {
                proof {
                    assert(event_clocks(evs).take(i as int + 1).drop_last() =~= event_clocks(
                        evs,
                    ).take(i as int));
                    assert(event_clocks(evs)[i as int] == evs[i as int].clock);
                    assert(evs[i as int] == self.internal_active_events@[i as int]@);
                }
                let c = self.internal_active_events[i].clock;
                if c < m {
                    m = c;
                }
                i = i + 1;
            }
            proof {
                assert(event_clocks(evs).take(event_clocks(evs).len() as int) =~= event_clocks(
                    evs,
                ));
            }
            self.clock = m;
        }
        proof {
            let ls = lines_bytes(lines@);
            assert(all_lines_ok(ls));
            assert(events_view(self.internal_active_events@) == events_view(
                old(self).internal_active_events@,
            ) + actives_of(ls));
            assert(forall|i: int|
                0 <= i < self.feeding_nodes@.len() ==> (
                #[trigger] self.feeding_nodes@[i]).clock as nat == passive_clock_of(
                    ls,
                    old(self).feeding_nodes@[i].name@,
                    old(self).feeding_nodes@[i].clock as nat,
                ));
        }
        Ok(())
    }
}

/// Index of the first feeding node with this endpoint name, if any.
fn find_feeding(fs: &Vec<FeedingNode>, name: &String) -> (r: Option<usize>)
    ensures
        r matches Some(j) ==> j < fs@.len() && fs@[j as int].name@ == name@,
        r is None ==> forall|i: int| 0 <= i < fs@.len() ==> (#[trigger] fs@[i]).name@ != name@,
{
    let mut j: usize = 0;
    while j < fs.len()
        invariant
            j <= fs@.len(),
            forall|i: int| 0 <= i < j ==> (#[trigger] fs@[i]).name@ != name@,
        decreases fs@.len() - j,
    {
        if fs[j].name.eq(name) {
            return Some(j);
        }
        j = j + 1;
    }
    None
}

/// Owner lookup in the transition-to-owner map.
#[verifier::loop_isolation(false)]
pub(crate) fn lookup_owner(m: &Vec<(usize, String)>, id: usize) -> (r: String)
    requires
        unique_keys(m@),
        map_has(m@, id as nat),
    ensures
        r@ == owner_of(m@, id as nat),
{
    let mut j: usize = 0;
    loop
        invariant
            j <= m@.len(),
            map_has(m@, id as nat),
            forall|t: int| 0 <= t < j ==> (#[trigger] m@[t]).0 != id,
        decreases m@.len() - j,
    {
        if j == m.len() {
            proof {
                let w = map_idx(m@, id as nat);
                assert(m@[w].0 == id);
                assert(false);
            }
        }
        if m[j].0 == id {
            proof {
                let w = map_idx(m@, id as nat);
                assert(m@[w].0 == id);
                assert(w == j as int);
                assert(owner_of(m@, id as nat) == m@[w].1@);
            }
            return m[j].1.clone();
        }
        j = j + 1;
    }
}

/// How many deliveries of a dispatch go to `who`.
pub open spec fn deliveries_to(ds: Seq<(Seq<char>, Seq<u8>)>, who: Seq<char>) -> nat
    decreases ds.len(),
{
    if ds.len() == 0 {
        0
    } else {
        deliveries_to(ds.drop_last(), who) + if ds.last().0 == who {
            1nat
        } else {
            0nat
        }
    }
}

/// How many buffered external events are owned by `who`.
pub open spec fn events_to(ext: Seq<ActiveEventView>, m: Seq<(usize, String)>, who: Seq<char>) -> nat
    decreases ext.len(),
{
    if ext.len() == 0 {
        0
    } else {
        events_to(ext.drop_last(), m, who) + if owner_of(m, ext.last().transition_id) == who {
            1nat
        } else {
            0nat
        }
    }
}

proof fn lemma_deliveries_to_concat(a: Seq<(Seq<char>, Seq<u8>)>, b: Seq<(Seq<char>, Seq<u8>)>, who: Seq<char>)
    ensures
        deliveries_to(a + b, who) == deliveries_to(a, who) + deliveries_to(b, who),
    decreases b.len(),
{
    if b.len() == 0 {
        assert(a + b =~= a);
    } else {
        lemma_deliveries_to_concat(a, b.drop_last(), who);
        assert((a + b).drop_last() =~= a + b.drop_last());
        assert((a + b).last() == b.last());
    }
}

proof fn lemma_active_deliveries_to(ext: Seq<ActiveEventView>, m: Seq<(usize, String)>, who: Seq<char>)
    ensures
        deliveries_to(active_deliveries(ext, m), who) == events_to(ext, m, who),
    decreases ext.len(),
{
    if ext.len() > 0 {
        lemma_active_deliveries_to(ext.drop_last(), m, who);
        assert(active_deliveries(ext, m).drop_last() =~= active_deliveries(ext.drop_last(), m));
    }
}

proof fn lemma_covered_events_to(ext: Seq<ActiveEventView>, m: Seq<(usize, String)>, who: Seq<char>)
    ensures
        covered(ext, m, who) <==> events_to(ext, m, who) > 0,
    decreases ext.len(),
{
    if ext.len() > 0 {
        lemma_covered_events_to(ext.drop_last(), m, who);
        if covered(ext.drop_last(), m, who) {
            let w = choose|i: int|
                0 <= i < ext.drop_last().len() && owner_of(
                    m,
                    (#[trigger] ext.drop_last()[i]).transition_id,
                ) == who;
            assert(owner_of(m, ext[w].transition_id) == who);
        }
        if covered(ext, m, who) && !covered(ext.drop_last(), m, who) {
            let w = choose|i: int|
                0 <= i < ext.len() && owner_of(m, (#[trigger] ext[i]).transition_id) == who;
            if w < ext.len() - 1 {
                assert(ext.drop_last()[w] == ext[w]);
                assert(false);
            }
            assert(owner_of(m, ext.last().transition_id) == who);
        }
        if owner_of(m, ext.last().transition_id) == who {
            assert(covered(ext, m, who));
        }
    }
}

proof fn lemma_events_to_distinct(ext: Seq<ActiveEventView>, m: Seq<(usize, String)>, who: Seq<char>)
    requires
        forall|i: int, j: int|
            0 <= i < j < ext.len() ==> owner_of(m, (#[trigger] ext[i]).transition_id) != owner_of(
                m,
                (#[trigger] ext[j]).transition_id,
            ),
    ensures
        events_to(ext, m, who) <= 1,
    decreases ext.len(),
{
    if ext.len() > 0 {
        assert forall|i: int, j: int|
            0 <= i < j < ext.drop_last().len() implies owner_of(
            m,
            (#[trigger] ext.drop_last()[i]).transition_id,
        ) != owner_of(m, (#[trigger] ext.drop_last()[j]).transition_id) by {
            assert(ext.drop_last()[i] == ext[i]);
            assert(ext.drop_last()[j] == ext[j]);
        }
        lemma_events_to_distinct(ext.drop_last(), m, who);
        if owner_of(m, ext.last().transition_id) == who {
            lemma_covered_events_to(ext.drop_last(), m, who);
            if covered(ext.drop_last(), m, who) {
                let w = choose|i: int|
                    0 <= i < ext.drop_last().len() && owner_of(
                        m,
                        (#[trigger] ext.drop_last()[i]).transition_id,
                    ) == who;
                assert(ext.drop_last()[w] == ext[w]);
                assert(owner_of(m, ext[w].transition_id) == owner_of(
                    m,
                    ext[ext.len() - 1].transition_id,
                ));
                assert(false);
            }
        }
    }
}

proof fn lemma_passive_deliveries_to(
    fed: Seq<Seq<char>>,
    ext: Seq<ActiveEventView>,
    m: Seq<(usize, String)>,
    node: Seq<char>,
    clk: nat,
    who: Seq<char>,
)
    requires
        forall|i: int, j: int| 0 <= i < j < fed.len() ==> #[trigger] fed[i] != #[trigger] fed[j],
    ensures
        deliveries_to(passive_deliveries(fed, ext, m, node, clk), who) == if fed.contains(who)
            && !covered(ext, m, who) {
            1nat
        } else {
            0nat
        },
    decreases fed.len(),
{
    if fed.len() > 0 {
        assert forall|i: int, j: int|
            0 <= i < j < fed.drop_last().len() implies #[trigger] fed.drop_last()[i] != (
        #[trigger] fed.drop_last()[j]) by {
            assert(fed.drop_last()[i] == fed[i]);
            assert(fed.drop_last()[j] == fed[j]);
        }
        lemma_passive_deliveries_to(fed.drop_last(), ext, m, node, clk, who);
        if fed.drop_last().contains(who) {
            let w = choose|i: int|
                0 <= i < fed.drop_last().len() && #[trigger] fed.drop_last()[i] == who;
            assert(fed[w] == who);
            assert(fed.contains(who));
            assert(fed.last() != who);
        }
        if fed.contains(who) && !fed.drop_last().contains(who) {
            let w = choose|i: int| 0 <= i < fed.len() && #[trigger] fed[i] == who;
            if w < fed.len() - 1 {
                assert(fed.drop_last()[w] == who);
                assert(false);
            }
            assert(fed.last() == who);
        }
        if fed.last() == who {
            assert(fed.contains(who)) by {
                assert(fed[fed.len() - 1] == who);
            }
        }
        let pre = passive_deliveries(fed.drop_last(), ext, m, node, clk);
        if !covered(ext, m, fed.last()) {
            assert(passive_deliveries(fed, ext, m, node, clk).drop_last() =~= pre);
        }
    }
}

/// One message per fed node per dispatch: every fed node is sent at least
/// one line — an active event or the passive promise — and exactly one when
/// no two buffered events share a destination.
pub proof fn lemma_fed_node_message(
    ext: Seq<ActiveEventView>,
    fed: Seq<Seq<char>>,
    m: Seq<(usize, String)>,
    node: Seq<char>,
    clk: nat,
    who: Seq<char>,
)
    requires
        forall|i: int, j: int| 0 <= i < j < fed.len() ==> #[trigger] fed[i] != #[trigger] fed[j],
        fed.contains(who),
    ensures
        deliveries_to(all_deliveries(ext, fed, m, node, clk), who) >= 1,
        (forall|i: int, j: int|
            0 <= i < j < ext.len() ==> owner_of(m, (#[trigger] ext[i]).transition_id) != owner_of(
                m,
                (#[trigger] ext[j]).transition_id,
            )) ==> deliveries_to(all_deliveries(ext, fed, m, node, clk), who) == 1,
{
    lemma_deliveries_to_concat(
        active_deliveries(ext, m),
        passive_deliveries(fed, ext, m, node, clk),
        who,
    );
    lemma_active_deliveries_to(ext, m, who);
    lemma_covered_events_to(ext, m, who);
    lemma_passive_deliveries_to(fed, ext, m, node, clk, who);
    if forall|i: int, j: int|
        0 <= i < j < ext.len() ==> owner_of(m, (#[trigger] ext[i]).transition_id) != owner_of(
            m,
            (#[trigger] ext[j]).transition_id,
        ) {
        lemma_events_to_distinct(ext, m, who);
    }
}

proof fn lemma_passive_lines(
    fed: Seq<Seq<char>>,
    ext: Seq<ActiveEventView>,
    m: Seq<(usize, String)>,
    node: Seq<char>,
    clk: nat,
)
    ensures
        forall|i: int|
            0 <= i < passive_deliveries(fed, ext, m, node, clk).len() ==> (
            #[trigger] passive_deliveries(fed, ext, m, node, clk)[i]).1 == crate::codec::passive_line(
                crate::codec::bytes_of(node),
                clk,
            ),
    decreases fed.len(),
{
    if fed.len() > 0 {
        lemma_passive_lines(fed.drop_last(), ext, m, node, clk);
        let pre = passive_deliveries(fed.drop_last(), ext, m, node, clk);
        assert forall|i: int|
            0 <= i < passive_deliveries(fed, ext, m, node, clk).len() implies (
        #[trigger] passive_deliveries(fed, ext, m, node, clk)[i]).1 == crate::codec::passive_line(
            crate::codec::bytes_of(node),
            clk,
        ) by {
            if !covered(ext, m, fed.last()) {
                if i < pre.len() {
                    assert(passive_deliveries(fed, ext, m, node, clk)[i] == pre[i]);
                }
            }
        }
    }
}

/// Every passive line of a dispatch decodes to a promise of exactly the
/// clock it was stamped with — the engine clock at dispatch plus the step.
pub proof fn lemma_passive_promise(
    fed: Seq<Seq<char>>,
    ext: Seq<ActiveEventView>,
    m: Seq<(usize, String)>,
    node: Seq<char>,
    clk: nat,
    i: int,
)
    requires
        wf_name(node),
        0 <= i < passive_deliveries(fed, ext, m, node, clk).len(),
    ensures
        crate::codec::parse_wire(passive_deliveries(fed, ext, m, node, clk)[i].1) == Some(
            crate::codec::WireForm::Passive { name: crate::codec::bytes_of(node), clock: clk },
        ),
{
    lemma_passive_lines(fed, ext, m, node, clk);
    crate::codec::lemma_name_chars_bytes(node);
    crate::codec::lemma_passive_round_trip(crate::codec::bytes_of(node), clk);
}

/// A net without delayed instructions schedules nothing when it fires.
pub proof fn lemma_no_delayed_no_events(net0: Seq<Transition>, clk: nat, node: Seq<char>, i: int)
    requires
        forall|t: int|
            0 <= t < net0.len() ==> (#[trigger] net0[t]).delayed_instructions@.len() == 0,
    ensures
        fire_from(net0, clk, node, i).internal == Seq::<ActiveEventView>::empty(),
        fire_from(net0, clk, node, i).external == Seq::<ActiveEventView>::empty(),
    decreases net0.len() - i,
{
    if 0 <= i < net0.len() {
        lemma_no_delayed_no_events(net0, clk, node, i + 1);
        if is_due(net0[i], clk) {
            let st = fire_from(net0, clk, node, i + 1);
            let (ints, exts) = route_delayed(
                net0[i].delayed_instructions@,
                node,
                (net0[i].clock + net0[i].duration) as nat,
            );
            assert(st.internal + ints =~= Seq::<ActiveEventView>::empty());
            assert(st.external + exts =~= Seq::<ActiveEventView>::empty());
        }
    }
}

/// With no delayed instructions anywhere in the local net, an iteration
/// that starts with an empty internal buffer and no inbound peers advances
/// the engine clock by exactly one step.
pub proof fn lemma_no_delayed_advances_by_step(
    net0: Seq<Transition>,
    clk: nat,
    step: nat,
    node: Seq<char>,
)
    requires
        forall|t: int|
            0 <= t < net0.len() ==> (#[trigger] net0[t]).delayed_instructions@.len() == 0,
    ensures
        fire_from(net0, clk, node, 0).internal == Seq::<ActiveEventView>::empty(),
        next_clock(clk, step, Seq::<ActiveEventView>::empty()) == clk + step,
{
    lemma_no_delayed_no_events(net0, clk, node, 0);
}

/// A transition holding a positive value is never selected for firing,
/// even when its clock matches the engine clock.
pub proof fn lemma_positive_value_never_fires(
    net0: Seq<Transition>,
    clk: nat,
    node: Seq<char>,
    st: FireState,
    idx: int,
)
    requires
        0 <= idx < net0.len(),
        net0[idx].value > 0,
    ensures
        fire_one(net0, clk, node, st, idx) == st,
{
}

proof fn lemma_apply_one_frame(net: Seq<Transition>, ins: Instruction, j: int)
    requires
        0 <= j < net.len(),
    ensures
        apply_one(net, ins)[j].value != net[j].value ==> ins.transition_id == net[j].id,
        apply_one(net, ins)[j].value == net[j].value || apply_one(net, ins)[j].value == ins.value,
{
}

proof fn lemma_apply_immediates_frame(net: Seq<Transition>, ins: Seq<Instruction>, j: int)
    requires
        0 <= j < net.len(),
    ensures
        apply_immediates(net, ins)[j].value != net[j].value ==> exists|k: int|
            0 <= k < ins.len() && (#[trigger] ins[k]).transition_id == net[j].id,
    decreases ins.len(),
{
    if ins.len() > 0 {
        lemma_apply_immediates_frame(net, ins.drop_last(), j);
        lemma_apply_immediates_skeleton(net, ins.drop_last());
        lemma_apply_one_frame(apply_immediates(net, ins.drop_last()), ins.last(), j);
        if apply_immediates(net, ins)[j].value != net[j].value {
            if apply_immediates(net, ins.drop_last())[j].value != net[j].value {
                let k = choose|k: int|
                    0 <= k < ins.drop_last().len() && (#[trigger] ins.drop_last()[k]).transition_id
                        == net[j].id;
                assert(ins[k].transition_id == net[j].id);
            } else {
                assert(apply_immediates(net, ins.drop_last())[j].id == net[j].id);
                assert(ins[ins.len() - 1].transition_id == net[j].id);
            }
        }
    }
}

/// Attributability of the firing phase: a transition whose token value
/// changed was the target of an immediate instruction of some transition
/// that was due at the engine clock.
pub proof fn lemma_fire_attributable(net0: Seq<Transition>, clk: nat, node: Seq<char>, i: int, j: int)
    requires
        0 <= j < net0.len(),
    ensures
        fire_from(net0, clk, node, i).net[j].value != net0[j].value ==> exists|t: int, k: int|
            0 <= t < net0.len() && is_due(net0[t], clk) && 0 <= k < net0[
                t
            ].immediate_instructions@.len() && (#[trigger] net0[t].immediate_instructions@[
                k
            ]).transition_id == net0[j].id,
    decreases net0.len() - i,
{
    if 0 <= i < net0.len() {
        lemma_fire_attributable(net0, clk, node, i + 1, j);
        lemma_fire_from_skeleton(net0, clk, node, i + 1);
        if is_due(net0[i], clk) {
            let st = fire_from(net0, clk, node, i + 1);
            lemma_apply_immediates_frame(st.net, net0[i].immediate_instructions@, j);
            if fire_from(net0, clk, node, i).net[j].value != net0[j].value {
                if st.net[j].value == net0[j].value {
                    assert(st.net[j].id == net0[j].id);
                    let k = choose|k: int|
                        0 <= k < net0[i].immediate_instructions@.len() && (#[trigger] net0[
                            i
                        ].immediate_instructions@[k]).transition_id == st.net[j].id;
                    assert(net0[i].immediate_instructions@[k].transition_id == net0[j].id);
                }
            }
        }
    }
}

/// Attributability of event integration: a transition that changed was the
/// target of a buffered internal event whose clock equals the engine clock.
pub proof fn lemma_integrate_attributable(
    net: Seq<Transition>,
    evs: Seq<ActiveEventView>,
    clk: nat,
    j: int,
)
    requires
        0 <= j < net.len(),
    ensures
        integrate_events(net, evs, clk)[j] != net[j] ==> exists|i: int|
            0 <= i < evs.len() && (#[trigger] evs[i]).clock == clk && evs[i].transition_id
                == net[j].id,
    decreases evs.len(),
{
    if evs.len() > 0 {
        lemma_integrate_attributable(net, evs.drop_last(), clk, j);
        lemma_integrate_structure(net, evs.drop_last(), clk);
        let pre = integrate_events(net, evs.drop_last(), clk);
        if integrate_events(net, evs, clk)[j] != net[j] {
            if evs.last().clock == clk && integrate_one(pre, evs.last()) != pre {
                if pre[j] == net[j] && integrate_one(pre, evs.last())[j] != pre[j] {
                    assert(pre[j].id == net[j].id);
                    assert(evs[evs.len() - 1].transition_id == net[j].id);
                } else {
                    let i = choose|i: int|
                        0 <= i < evs.drop_last().len() && (#[trigger] evs.drop_last()[i]).clock
                            == clk && evs.drop_last()[i].transition_id == net[j].id;
                    assert(evs[i].clock == clk && evs[i].transition_id == net[j].id);
                }
            } else {
                let i = choose|i: int|
                    0 <= i < evs.drop_last().len() && (#[trigger] evs.drop_last()[i]).clock == clk
                        && evs.drop_last()[i].transition_id == net[j].id;
                assert(evs[i].clock == clk && evs[i].transition_id == net[j].id);
            }
        }
    }
}

proof fn lemma_route_delayed_mapped(
    instrs: Seq<Instruction>,
    node: Seq<char>,
    when: nat,
    m: Seq<(usize, String)>,
)
    requires
        forall|k: int|
            0 <= k < instrs.len() ==> map_has(m, (#[trigger] instrs[k]).transition_id as nat),
    ensures
        forall|j: int|
            0 <= j < route_delayed(instrs, node, when).1.len() ==> map_has(
                m,
                (#[trigger] route_delayed(instrs, node, when).1[j]).transition_id,
            ),
    decreases instrs.len(),
{
    if instrs.len() > 0 {
        assert forall|k: int|
            0 <= k < instrs.drop_last().len() implies map_has(
            m,
            (#[trigger] instrs.drop_last()[k]).transition_id as nat,
        ) by {
            assert(instrs.drop_last()[k] == instrs[k]);
        }
        lemma_route_delayed_mapped(instrs.drop_last(), node, when, m);
        assert(map_has(m, instrs[instrs.len() - 1].transition_id as nat));
        let exts0 = route_delayed(instrs.drop_last(), node, when).1;
        let exts = route_delayed(instrs, node, when).1;
        assert forall|j: int| 0 <= j < exts.len() implies map_has(
            m,
            (#[trigger] exts[j]).transition_id,
        ) by {
            if instrs.last().is_external {
                if j < exts0.len() {
                    assert(exts[j] == exts0[j]);
                } else {
                    assert(exts[j].transition_id == instrs.last().transition_id as nat);
                }
            } else {
                assert(exts[j] == exts0[j]);
            }
        }
    }
}

/// Every external event a firing schedules names a transition the owner map
/// knows: the dispatch phase's requirement follows from the firing phase's
/// contract and the loaded net's validity.
pub proof fn lemma_fire_events_mapped(
    net0: Seq<Transition>,
    clk: nat,
    node: Seq<char>,
    m: Seq<(usize, String)>,
    i: int,
)
    requires
        net_instructions_wf(net0, m),
    ensures
        forall|j: int|
            0 <= j < fire_from(net0, clk, node, i).external.len() ==> map_has(
                m,
                (#[trigger] fire_from(net0, clk, node, i).external[j]).transition_id,
            ),
    decreases net0.len() - i,
{
    if i < 0 || i >= net0.len() {
        assert(fire_from(net0, clk, node, i).external.len() == 0);
    } else {
        lemma_fire_events_mapped(net0, clk, node, m, i + 1);
        let st = fire_from(net0, clk, node, i + 1);
        if !is_due(net0[i], clk) {
            assert(fire_from(net0, clk, node, i) == st);
        }
        if is_due(net0[i], clk) {
            let when = (net0[i].clock + net0[i].duration) as nat;
            lemma_route_delayed_mapped(net0[i].delayed_instructions@, node, when, m);
            let (ints, exts) = route_delayed(net0[i].delayed_instructions@, node, when);
            assert forall|j: int|
                0 <= j < fire_from(net0, clk, node, i).external.len() implies map_has(
                m,
                (#[trigger] fire_from(net0, clk, node, i).external[j]).transition_id,
            ) by {
                if j < st.external.len() {
                    assert(fire_from(net0, clk, node, i).external[j] == st.external[j]);
                } else {
                    assert(fire_from(net0, clk, node, i).external[j] == exts[j
                        - st.external.len()]);
                }
            }
        }
    }
}

/// Clock monotonicity across a whole tick, with peers: when every event
/// already buffered and every active event the received lines carry has a
/// clock no earlier than the engine clock — which conservative peers
/// guarantee — the advanced clock is no earlier either.
pub proof fn lemma_tick_monotone(
    clk: nat,
    step: nat,
    evs0: Seq<ActiveEventView>,
    lines: Seq<Seq<u8>>,
)
    requires
        forall|i: int| 0 <= i < evs0.len() ==> (#[trigger] evs0[i]).clock >= clk,
        forall|i: int|
            0 <= i < actives_of(lines).len() ==> (#[trigger] actives_of(lines)[i]).clock >= clk,
    ensures
        next_clock(clk, step, evs0 + actives_of(lines)) >= clk,
{
    let evs = evs0 + actives_of(lines);
    assert forall|i: int| 0 <= i < evs.len() implies (#[trigger] evs[i]).clock >= clk by {
        if i < evs0.len() {
            assert(evs[i] == evs0[i]);
        } else {
            assert(evs[i] == actives_of(lines)[i - evs0.len()]);
        }
    }
    lemma_clock_monotone(clk, step, evs);
}

/// The buffered half of conservative safety: when any event remains
/// buffered after integration, the advanced clock is itself the clock of a
/// buffered event (the earliest one), so the iteration that starts at the
/// new clock finds that event waiting.
pub proof fn lemma_advancement_lands_on_buffered_event(
    clk: nat,
    step: nat,
    evs: Seq<ActiveEventView>,
)
    requires
        evs.len() > 0,
    ensures
        exists|i: int| 0 <= i < evs.len() && (#[trigger] evs[i]).clock == next_clock(clk, step, evs),
{
    lemma_seq_min(event_clocks(evs));
    let w = choose|i: int|
        0 <= i < event_clocks(evs).len() && #[trigger] event_clocks(evs)[i] == seq_min(
            event_clocks(evs),
        );
    assert(event_clocks(evs)[w] == evs[w].clock);
    assert(evs[w].clock == next_clock(clk, step, evs));
}

} // verus!