//! Construction of an engine from the cohort description: the node list is
//! sorted and deduplicated, nets are assigned positionally, the global
//! transition-to-owner map is built and validated, and the fed / feeding
//! relations are derived from the external delayed instructions.

use vstd::prelude::*;

use crate::codec::wf_name;
use crate::engine::Engine;
use crate::engine::FeedingNode;
use crate::engine::make_channel;
use crate::engine::map_has;
use crate::engine::map_idx;
use crate::engine::names_view;
use crate::engine::net_has_id;
use crate::engine::net_instructions_wf;
use crate::engine::owner_of;
use crate::engine::unique_ids;
use crate::engine::unique_keys;
use crate::error::AppError;
use crate::model::Net;
use crate::model::Transition;

verus! {

/// Lexicographic order on character sequences, by scalar value — the order
/// `str` comparison gives.
pub open spec fn lex_leq(a: Seq<char>, b: Seq<char>) -> bool
    decreases a.len(),
{
    if a.len() == 0 {
        true
    } else if b.len() == 0 {
        false
    } else if a[0] != b[0] {
        a[0] < b[0]
    } else {
        lex_leq(a.drop_first(), b.drop_first())
    }
}

/// Pairwise sortedness of a name list.
pub open spec fn sorted_names(s: Seq<Seq<char>>) -> bool {
    forall|i: int, j: int| 0 <= i < j < s.len() ==> lex_leq(#[trigger] s[i], #[trigger] s[j])
}

/// No two entries of a name list are equal.
pub open spec fn no_dup_names(s: Seq<Seq<char>>) -> bool {
    forall|i: int, j: int| 0 <= i < j < s.len() ==> #[trigger] s[i] != #[trigger] s[j]
}

/// What sorting and deduplicating a name list yields: sorted, duplicate
/// free, with exactly the names of the original.
pub open spec fn is_sorted_dedup_of(out: Seq<Seq<char>>, orig: Seq<Seq<char>>) -> bool {
    &&& sorted_names(out)
    &&& no_dup_names(out)
    &&& forall|x: Seq<char>| out.contains(x) <==> orig.contains(x)
}

/// Two names each at most the other are the same name.
proof fn lemma_lex_leq_antisym(a: Seq<char>, b: Seq<char>)
    requires
        lex_leq(a, b),
        lex_leq(b, a),
    ensures
        a == b,
    decreases a.len(),
{
    if a.len() == 0 {
        assert(b.len() == 0);
        assert(a =~= b);
    } else {
        assert(b.len() > 0);
        assert(a[0] == b[0]);
        lemma_lex_leq_antisym(a.drop_first(), b.drop_first());
        assert(a.drop_first() == b.drop_first());
        assert forall|i: int| 0 <= i < a.len() implies a[i] == b[i] by {
            if i > 0 {
                assert(a[i] == a.drop_first()[i - 1]);
                assert(b[i] == b.drop_first()[i - 1]);
            }
        }
        assert(a =~= b);
    }
}

/// Relies on `<[String]>::sort`: sorts in place by `Ord` on `String` —
/// lexicographic over the UTF-8 bytes, which orders exactly as [`lex_leq`]
/// on the character sequences — keeping the same set of names.
#[verifier::external_body]
fn sort_strings(v: &mut Vec<String>)
    ensures
        final(v)@.len() == old(v)@.len(),
        sorted_names(names_view(final(v)@)),
        forall|x: Seq<char>|
            names_view(final(v)@).contains(x) <==> names_view(old(v)@).contains(x),
{
    v.sort();
}

/// Remove duplicates from a sorted name list, keeping the first of each
/// run.
#[verifier::loop_isolation(false)]
fn dedup_sorted(v: Vec<String>) -> (r: Vec<String>)
    requires
        sorted_names(names_view(v@)),
    ensures
        is_sorted_dedup_of(names_view(r@), names_view(v@)),
{
    let ghost vv = names_view(v@);
    let mut r: Vec<String> = Vec::new();
    let mut i: usize = 0;
    while i < v.len()
        invariant
            i <= v@.len(),
            sorted_names(names_view(r@)),
            no_dup_names(names_view(r@)),
            forall|x: Seq<char>| names_view(r@).contains(x) ==> vv.take(i as int).contains(x),
            forall|x: Seq<char>| vv.take(i as int).contains(x) ==> names_view(r@).contains(x),
            r@.len() > 0 ==> i > 0 && names_view(r@).last() == vv[i - 1],
            r@.len() == 0 ==> i == 0,
        decreases v@.len() - i,
    {
        proof {
            assert(vv[i as int] == v@[i as int]@);
        }
        let keep: bool = if r.len() == 0 {
            true
        } else {
            let lastr = &r[r.len() - 1];
            !lastr.eq(&v[i])
        };
        let ghost rpre = names_view(r@);
        if keep {
            r.push(v[i].clone());
            proof {
                assert(names_view(r@) =~= rpre.push(vv[i as int]));
                // every kept name is one of the scanned names, hence below
                // the one being pushed
                assert forall|a: int| 0 <= a < rpre.len() implies lex_leq(
                    #[trigger] rpre[a],
                    vv[i as int],
                ) by {
                    assert(rpre.contains(rpre[a]));
                    let w = choose|w: int|
                        0 <= w < i && #[trigger] vv.take(i as int)[w] == rpre[a];
                    assert(vv[w] == rpre[a]);
                    assert(lex_leq(vv[w], vv[i as int]));
                }
                assert forall|a: int, b: int|
                    0 <= a < b < names_view(r@).len() implies lex_leq(
                    #[trigger] names_view(r@)[a],
                    #[trigger] names_view(r@)[b],
                ) by {
                    if b < rpre.len() {
                        assert(names_view(r@)[a] == rpre[a] && names_view(r@)[b] == rpre[b]);
                    } else {
                        assert(names_view(r@)[a] == rpre[a]);
                        assert(names_view(r@)[b] == vv[i as int]);
                    }
                }
                // the pushed name differs from every kept one: it differs
                // from the last kept, and anything not below the last kept
                // would equal it
                assert forall|a: int, b: int|
                    0 <= a < b < names_view(r@).len() implies #[trigger] names_view(r@)[a] != (
                #[trigger] names_view(r@)[b]) by {
                    if b == names_view(r@).len() - 1 && rpre.len() > 0 {
                        let la = rpre.len() - 1;
                        if names_view(r@)[a] == names_view(r@)[b] {
                            assert(rpre[a] == vv[i as int]);
                            assert(lex_leq(rpre[a], rpre[la]) || a == la);
                            assert(lex_leq(rpre[la], vv[i as int]));
                            if a < la {
                                assert(lex_leq(vv[i as int], rpre[la]));
                                lemma_lex_leq_antisym(rpre[la], vv[i as int]);
                            }
                            assert(rpre[la] == vv[i as int]);
                            assert(rpre[la] == vv[(i - 1) as int]);
                            assert(false);
                        }
                    }
                }
                assert forall|x: Seq<char>|
                    vv.take(i as int + 1).contains(x) implies names_view(r@).contains(x) by {
                    let w = choose|w: int|
                        0 <= w < i + 1 && #[trigger] vv.take(i as int + 1)[w] == x;
                    if w < i as int {
                        assert(vv.take(i as int)[w] == x);
                        assert(rpre.contains(x));
                        let u = choose|u: int| 0 <= u < rpre.len() && #[trigger] rpre[u] == x;
                        assert(names_view(r@)[u] == x);
                    } else {
                        assert(names_view(r@).last() == x);
                    }
                }
                assert forall|x: Seq<char>|
                    names_view(r@).contains(x) implies vv.take(i as int + 1).contains(x) by {
                    let w = choose|w: int|
                        0 <= w < names_view(r@).len() && #[trigger] names_view(r@)[w] == x;
                    if w < rpre.len() {
                        assert(rpre[w] == x);
                        assert(rpre.contains(x));
                        assert(vv.take(i as int).contains(x));
                        let u = choose|u: int|
                            0 <= u < i && #[trigger] vv.take(i as int)[u] == x;
                        assert(vv.take(i as int + 1)[u] == x);
                    } else {
                        assert(vv.take(i as int + 1)[i as int] == x);
                    }
                }
            }
        } else {
            proof {
                assert(names_view(r@).last() == vv[i as int]);
                assert forall|x: Seq<char>|
                    vv.take(i as int + 1).contains(x) implies names_view(r@).contains(x) by {
                    let w = choose|w: int|
                        0 <= w < i + 1 && #[trigger] vv.take(i as int + 1)[w] == x;
                    if w < i as int {
                        assert(vv.take(i as int)[w] == x);
                    } else {
                        assert(x == vv[i as int]);
                        assert(names_view(r@).contains(names_view(r@).last()));
                    }
                }
                assert forall|x: Seq<char>|
                    names_view(r@).contains(x) implies vv.take(i as int + 1).contains(x) by {
                    assert(vv.take(i as int).contains(x));
                    let u = choose|u: int| 0 <= u < i && #[trigger] vv.take(i as int)[u] == x;
                    assert(vv.take(i as int + 1)[u] == x);
                }
            }
        }
        i = i + 1;
    }
    proof {
        assert(vv.take(vv.len() as int) =~= vv);
    }
    r
}

/// Sort the cohort's endpoints and drop duplicates: the canonical node list
/// every peer agrees on.
pub fn sort_dedup_nodes(nodes: Vec<String>) -> (r: Vec<String>)
    ensures
        is_sorted_dedup_of(names_view(r@), names_view(nodes@)),
{
    let mut v = nodes;
    sort_strings(&mut v);
    dedup_sorted(v)
}

/// Some net of the cohort owns this transition id.
pub open spec fn global_has(nets: Seq<Net>, id: nat) -> bool {
    exists|k: int, t: int|
        0 <= k < nets.len() && 0 <= t < nets[k].transitions@.len() && (
        #[trigger] nets[k].transitions@[t]).id == id
}

/// No transition id appears twice anywhere in the cohort.
pub open spec fn global_unique(nets: Seq<Net>) -> bool {
    forall|k1: int, t1: int, k2: int, t2: int|
        0 <= k1 < nets.len() && 0 <= t1 < nets[k1].transitions@.len() && 0 <= k2 < nets.len() && 0
            <= t2 < nets[k2].transitions@.len() && (k1 != k2 || t1 != t2) ==> (
        #[trigger] nets[k1].transitions@[t1]).id != (#[trigger] nets[k2].transitions@[t2]).id
}

/// No id repeats among the positions strictly before (k, t) in file order.
pub open spec fn prefix_unique(nets: Seq<Net>, k: int, t: int) -> bool {
    forall|k1: int, t1: int, k2: int, t2: int|
        0 <= k1 < nets.len() && 0 <= t1 < nets[k1].transitions@.len() && 0 <= k2 < nets.len() && 0
            <= t2 < nets[k2].transitions@.len() && (k1 < k || (k1 == k && t1 < t)) && (k2 < k || (
        k2 == k && t2 < t)) && (k1 != k2 || t1 != t2) ==> (
        #[trigger] nets[k1].transitions@[t1]).id != (#[trigger] nets[k2].transitions@[t2]).id
}

/// The ids owned strictly before position (k, t) in file order.
pub open spec fn prefix_has(nets: Seq<Net>, k: int, t: int, id: nat) -> bool {
    exists|k2: int, t2: int|
        0 <= k2 < nets.len() && 0 <= t2 < nets[k2].transitions@.len() && (k2 < k || (k2 == k && t2
            < t)) && (#[trigger] nets[k2].transitions@[t2]).id == id
}

/// Whether the map knows this key, executably.
fn map_contains_key(m: &Vec<(usize, String)>, id: usize) -> (r: bool)
    ensures
        r == map_has(m@, id as nat),
{
    let mut j: usize = 0;
    while j < m.len()
        invariant
            j <= m@.len(),
            forall|t: int| 0 <= t < j ==> (#[trigger] m@[t]).0 != id,
        decreases m@.len() - j,
    {
        if m[j].0 == id {
            return true;
        }
        j = j + 1;
    }
    false
}

/// Build the global transition-to-owner map: every id of net `k` is owned
/// by the node at position `k`.  A repeated id anywhere in the cohort is a
/// fatal startup error.
#[verifier::loop_isolation(false)]
pub fn build_owner_map(nets: &Vec<Net>, nodes: &Vec<String>) -> (r: Result<
    Vec<(usize, String)>,
    AppError,
>)
    requires
        nets@.len() == nodes@.len(),
    ensures
        r is Ok <==> global_unique(nets@),
        r matches Ok(m) ==> {
            &&& unique_keys(m@)
            &&& forall|id: nat| #[trigger] map_has(m@, id) <==> global_has(nets@, id)
            &&& forall|k: int, t: int|
                0 <= k < nets@.len() && 0 <= t < nets@[k].transitions@.len() ==> owner_of(
                    m@,
                    (#[trigger] nets@[k].transitions@[t]).id as nat,
                ) == names_view(nodes@)[k]
        },
        r matches Err(e) ==> e matches AppError::DuplicateTransition(_),
{
    let mut m: Vec<(usize, String)> = Vec::new();
    let mut k: usize = 0;
    while k < nets.len()
        invariant
            k <= nets@.len(),
            unique_keys(m@),
            prefix_unique(nets@, k as int, 0),
            forall|id: nat| #[trigger] map_has(m@, id) <==> prefix_has(nets@, k as int, 0, id),
            forall|k2: int, t2: int|
                0 <= k2 < k && 0 <= t2 < nets@[k2].transitions@.len() ==> owner_of(
                    m@,
                    (#[trigger] nets@[k2].transitions@[t2]).id as nat,
                ) == names_view(nodes@)[k2],
        decreases nets@.len() - k,
    {
        let mut t: usize = 0;
        while t < nets[k].transitions.len()
            invariant
                k < nets@.len(),
                t <= nets@[k as int].transitions@.len(),
                unique_keys(m@),
                prefix_unique(nets@, k as int, t as int),
                forall|id: nat| #[trigger] map_has(m@, id) <==> prefix_has(
                    nets@,
                    k as int,
                    t as int,
                    id,
                ),
                forall|k2: int, t2: int|
                    0 <= k2 < nets@.len() && 0 <= t2 < nets@[k2].transitions@.len() && (k2
                        < k as int || (k2 == k as int && t2 < t as int)) ==> owner_of(
                        m@,
                        (#[trigger] nets@[k2].transitions@[t2]).id as nat,
                    ) == names_view(nodes@)[k2],
            decreases nets@[k as int].transitions@.len() - t,
        {
            let id = nets[k].transitions[t].id;
            if map_contains_key(&m, id) {
                proof {
                    assert(prefix_has(nets@, k as int, t as int, id as nat));
                    let (k2, t2) = choose|k2: int, t2: int|
                        0 <= k2 < nets@.len() && 0 <= t2 < nets@[k2].transitions@.len() && (k2
                            < k as int || (k2 == k as int && t2 < t as int)) && (
                        #[trigger] nets@[k2].transitions@[t2]).id == id;
                    assert(!global_unique(nets@));
                }
                return Err(AppError::DuplicateTransition(id));
            }
            let ghost mpre = m@;
            m.push((id, nodes[k].clone()));
            proof {
                assert(m@ =~= mpre.push((id, m@.last().1)));
                assert(m@.last().1@ == nodes@[k as int]@);
                assert forall|idq: nat| #[trigger] map_has(m@, idq) implies prefix_has(
                    nets@,
                    k as int,
                    t as int + 1,
                    idq,
                ) by {
                    let w = choose|w: int| 0 <= w < m@.len() && (#[trigger] m@[w]).0 == idq;
                    if w < mpre.len() {
                        assert(map_has(mpre, idq));
                        let (k2, t2) = choose|k2: int, t2: int|
                            0 <= k2 < nets@.len() && 0 <= t2 < nets@[k2].transitions@.len() && (k2
                                < k as int || (k2 == k as int && t2 < t as int)) && (
                            #[trigger] nets@[k2].transitions@[t2]).id == idq;
                        assert((#[trigger] nets@[k2].transitions@[t2]).id == idq);
                    } else {
                        assert(idq == id as nat);
                        assert((#[trigger] nets@[k as int].transitions@[t as int]).id == idq);
                    }
                }
                assert forall|idq: nat|
                    prefix_has(nets@, k as int, t as int + 1, idq) implies #[trigger] map_has(
                    m@,
                    idq,
                ) by {
                    let (k2, t2) = choose|k2: int, t2: int|
                        0 <= k2 < nets@.len() && 0 <= t2 < nets@[k2].transitions@.len() && (k2
                            < k as int || (k2 == k as int && t2 < t as int + 1)) && (
                        #[trigger] nets@[k2].transitions@[t2]).id == idq;
                    if k2 == k as int && t2 == t as int {
                        assert(m@.last().0 == id);
                    } else {
                        assert(prefix_has(nets@, k as int, t as int, idq));
                        assert(map_has(mpre, idq));
                        let w = choose|w: int| 0 <= w < mpre.len() && (#[trigger] mpre[w]).0 == idq;
                        assert(m@[w].0 == idq);
                    }
                }
                assert forall|k1: int, t1: int, k2: int, t2: int|
                    0 <= k1 < nets@.len() && 0 <= t1 < nets@[k1].transitions@.len() && 0 <= k2
                        < nets@.len() && 0 <= t2 < nets@[k2].transitions@.len() && (k1 < k as int
                        || (k1 == k as int && t1 < t as int + 1)) && (k2 < k as int || (k2
                        == k as int && t2 < t as int + 1)) && (k1 != k2 || t1 != t2) implies (
                #[trigger] nets@[k1].transitions@[t1]).id != (
                #[trigger] nets@[k2].transitions@[t2]).id by {
                    if k1 == k as int && t1 == t as int {
                        if nets@[k1].transitions@[t1].id == nets@[k2].transitions@[t2].id {
                            assert(prefix_has(nets@, k as int, t as int, id as nat));
                            assert(map_has(mpre, id as nat));
                            assert(false);
                        }
                    } else if k2 == k as int && t2 == t as int {
                        if nets@[k1].transitions@[t1].id == nets@[k2].transitions@[t2].id {
                            assert(prefix_has(nets@, k as int, t as int, id as nat));
                            assert(map_has(mpre, id as nat));
                            assert(false);
                        }
                    }
                }
                // the new entry's owner is positional; older entries keep theirs
                assert forall|k2: int, t2: int|
                    0 <= k2 < nets@.len() && 0 <= t2 < nets@[k2].transitions@.len() && (k2
                        < k as int || (k2 == k as int && t2 < t as int + 1)) implies owner_of(
                    m@,
                    (#[trigger] nets@[k2].transitions@[t2]).id as nat,
                ) == names_view(nodes@)[k2] by {
                    let idq = nets@[k2].transitions@[t2].id as nat;
                    let w = map_idx(m@, idq);
                    assert(map_has(m@, idq)) by {
                        if k2 == k as int && t2 == t as int {
                            assert(m@[m@.len() - 1].0 == idq);
                        } else {
                            assert(prefix_has(nets@, k as int, t as int, idq));
                            assert(map_has(mpre, idq));
                            let u = choose|u: int|
                                0 <= u < mpre.len() && (#[trigger] mpre[u]).0 == idq;
                            assert(m@[u].0 == idq);
                        }
                    }
                    assert(0 <= w < m@.len() && m@[w].0 == idq);
                    if k2 == k as int && t2 == t as int {
                        assert(w == m@.len() - 1) by {
                            if w < mpre.len() {
                                assert(map_has(mpre, idq));
                                assert(prefix_has(nets@, k as int, t as int, idq));
                                let (k3, t3) = choose|k3: int, t3: int|
                                    0 <= k3 < nets@.len() && 0 <= t3 < nets@[
                                    k3
                                ].transitions@.len() && (k3 < k as int || (k3 == k as int && t3
                                    < t as int)) && (#[trigger] nets@[k3].transitions@[t3]).id
                                    == idq;
                                assert(false);
                            }
                        }
                        assert(owner_of(m@, idq) == nodes@[k as int]@);
                    } else {
                        assert(w < mpre.len()) by {
                            if w == m@.len() - 1 {
                                assert(map_has(mpre, idq));
                                let u = choose|u: int|
                                    0 <= u < mpre.len() && (#[trigger] mpre[u]).0 == idq;
                                assert(m@[u].0 == idq && m@[w].0 == idq);
                                assert(false);
                            }
                        }
                        assert(mpre[w] == m@[w]);
                        assert(owner_of(mpre, idq) == mpre[map_idx(mpre, idq)].1@);
                        assert(map_idx(mpre, idq) == w) by {
                            let u = map_idx(mpre, idq);
                            assert(mpre[u].0 == idq);
                            assert(m@[u].0 == idq);
                        }
                        assert(owner_of(m@, idq) == m@[w].1@);
                    }
                }
            }
            t = t + 1;
        }
        k = k + 1;
    }
    proof {
        assert forall|idq: nat| #[trigger] map_has(m@, idq) implies global_has(nets@, idq) by {
            let (k2, t2) = choose|k2: int, t2: int|
                0 <= k2 < nets@.len() && 0 <= t2 < nets@[k2].transitions@.len() && (k2
                    < nets@.len() as int || (k2 == nets@.len() as int && t2 < 0)) && (
                #[trigger] nets@[k2].transitions@[t2]).id == idq;
            assert((#[trigger] nets@[k2].transitions@[t2]).id == idq);
        }
        assert forall|idq: nat| global_has(nets@, idq) implies #[trigger] map_has(m@, idq) by {
            let (k2, t2) = choose|k2: int, t2: int|
                0 <= k2 < nets@.len() && 0 <= t2 < nets@[k2].transitions@.len() && (
                #[trigger] nets@[k2].transitions@[t2]).id == idq;
            assert(prefix_has(nets@, nets@.len() as int, 0, idq));
        }
        assert(global_unique(nets@)) by {
            assert(prefix_unique(nets@, nets@.len() as int, 0));
        }
    }
    Ok(m)
}

/// Validity of the local net against the owner map: immediate instructions
/// are internal and name a local transition; delayed instructions name a
/// mapped transition and carry the externality their target's owner
/// dictates.
pub open spec fn valid_net(net: Seq<Transition>, m: Seq<(usize, String)>, selfname: Seq<char>) -> bool {
    &&& forall|i: int, k: int|
        0 <= i < net.len() && 0 <= k < net[i].immediate_instructions@.len() ==> {
            let ins = #[trigger] net[i].immediate_instructions@[k];
            &&& !ins.is_external
            &&& net_has_id(net, ins.transition_id as nat)
        }
    &&& forall|i: int, k: int|
        0 <= i < net.len() && 0 <= k < net[i].delayed_instructions@.len() ==> {
            let ins = #[trigger] net[i].delayed_instructions@[k];
            &&& map_has(m, ins.transition_id as nat)
            &&& (ins.is_external <==> owner_of(m, ins.transition_id as nat) != selfname)
        }
}

/// Check the local net at load time (fatal on the first offence): an
/// external immediate instruction, an immediate target this node does not
/// own, an unmapped delayed target, or an externality flag contradicting
/// the owner map.
#[verifier::loop_isolation(false)]
pub fn validate_net(net: &Vec<Transition>, m: &Vec<(usize, String)>, selfname: &String) -> (r:
    Result<(), AppError>)
    requires
        unique_keys(m@),
    ensures
        r is Ok <==> valid_net(net@, m@, selfname@),
        r matches Err(e) ==> (e matches AppError::ImmediateExternal(_) || e
            matches AppError::MissingTransition(_) || e matches AppError::ExternalityMismatch(_)),
{
    let mut i: usize = 0;
    while i < net.len()
        invariant
            i <= net@.len(),
            forall|i2: int, k2: int|
                0 <= i2 < i && 0 <= k2 < net@[i2].immediate_instructions@.len() ==> {
                    let ins = #[trigger] net@[i2].immediate_instructions@[k2];
                    &&& !ins.is_external
                    &&& net_has_id(net@, ins.transition_id as nat)
                },
            forall|i2: int, k2: int|
                0 <= i2 < i && 0 <= k2 < net@[i2].delayed_instructions@.len() ==> {
                    let ins = #[trigger] net@[i2].delayed_instructions@[k2];
                    &&& map_has(m@, ins.transition_id as nat)
                    &&& (ins.is_external <==> owner_of(m@, ins.transition_id as nat)
                        != selfname@)
                },
        decreases net@.len() - i,
    {
        let mut k: usize = 0;
        while k < net[i].immediate_instructions.len()
            invariant
                i < net@.len(),
                k <= net@[i as int].immediate_instructions@.len(),
                forall|k2: int|
                    0 <= k2 < k ==> {
                        let ins = #[trigger] net@[i as int].immediate_instructions@[k2];
                        &&& !ins.is_external
                        &&& net_has_id(net@, ins.transition_id as nat)
                    },
            decreases net@[i as int].immediate_instructions@.len() - k,
        {
            let ins = net[i].immediate_instructions[k];
            if ins.is_external {
                return Err(AppError::ImmediateExternal(ins.transition_id));
            }
            match crate::engine::find_by_id(net, ins.transition_id) {
                Some(_) => {},
                None => {
                    proof {
                        assert(!net_has_id(net@, ins.transition_id as nat)) by {
                            if net_has_id(net@, ins.transition_id as nat) {
                                let w = crate::engine::idx_of_id(net@, ins.transition_id as nat);
                                assert(net@[w].id == ins.transition_id);
                            }
                        }
                    }
                    return Err(AppError::MissingTransition(ins.transition_id));
                },
            }
            k = k + 1;
        }
        let mut k: usize = 0;
        while k < net[i].delayed_instructions.len()
            invariant
                i < net@.len(),
                k <= net@[i as int].delayed_instructions@.len(),
                forall|k2: int|
                    0 <= k2 < k ==> {
                        let ins = #[trigger] net@[i as int].delayed_instructions@[k2];
                        &&& map_has(m@, ins.transition_id as nat)
                        &&& (ins.is_external <==> owner_of(m@, ins.transition_id as nat)
                            != selfname@)
                    },
                forall|i2: int, k2: int|
                    0 <= i2 < i && 0 <= k2 < net@[i2].immediate_instructions@.len() ==> {
                        let ins = #[trigger] net@[i2].immediate_instructions@[k2];
                        &&& !ins.is_external
                        &&& net_has_id(net@, ins.transition_id as nat)
                    },
                forall|k2: int|
                    0 <= k2 < net@[i as int].immediate_instructions@.len() ==> {
                        let ins = #[trigger] net@[i as int].immediate_instructions@[k2];
                        &&& !ins.is_external
                        &&& net_has_id(net@, ins.transition_id as nat)
                    },
            decreases net@[i as int].delayed_instructions@.len() - k,
        {
            let ins = net[i].delayed_instructions[k];
            if !map_contains_key(m, ins.transition_id) {
                return Err(AppError::MissingTransition(ins.transition_id));
            }
            let owner = crate::engine::lookup_owner(m, ins.transition_id);
            let external = !owner.eq(selfname);
            if ins.is_external != external {
                return Err(AppError::ExternalityMismatch(ins.transition_id));
            }
            k = k + 1;
        }
        i = i + 1;
    }
    Ok(())
}

/// Whether this net's delayed external instructions reach a transition
/// owned by `f` — that is, whether the net's owner feeds node `f`.
pub open spec fn is_fed(net: Seq<Transition>, m: Seq<(usize, String)>, f: Seq<char>) -> bool {
    exists|t: int, k: int|
        0 <= t < net.len() && 0 <= k < net[t].delayed_instructions@.len() && (
        #[trigger] net[t].delayed_instructions@[k]).is_external && map_has(
            m,
            net[t].delayed_instructions@[k].transition_id as nat,
        ) && owner_of(m, net[t].delayed_instructions@[k].transition_id as nat) == f
}

/// Executable test of [`is_fed`].
#[verifier::loop_isolation(false)]
fn is_fed_exec(net: &Vec<Transition>, m: &Vec<(usize, String)>, f: &String) -> (r: bool)
    requires
        unique_keys(m@),
    ensures
        r == is_fed(net@, m@, f@),
{
    let mut t: usize = 0;
    while t < net.len()
        invariant
            t <= net@.len(),
            forall|t2: int, k2: int|
                0 <= t2 < t && 0 <= k2 < net@[t2].delayed_instructions@.len() ==> !((
                #[trigger] net@[t2].delayed_instructions@[k2]).is_external && map_has(
                    m@,
                    net@[t2].delayed_instructions@[k2].transition_id as nat,
                ) && owner_of(m@, net@[t2].delayed_instructions@[k2].transition_id as nat)
                    == f@),
        decreases net@.len() - t,
    {
        let mut k: usize = 0;
        while k < net[t].delayed_instructions.len()
            invariant
                t < net@.len(),
                k <= net@[t as int].delayed_instructions@.len(),
                forall|k2: int|
                    0 <= k2 < k ==> !((
                    #[trigger] net@[t as int].delayed_instructions@[k2]).is_external && map_has(
                        m@,
                        net@[t as int].delayed_instructions@[k2].transition_id as nat,
                    ) && owner_of(
                        m@,
                        net@[t as int].delayed_instructions@[k2].transition_id as nat,
                    ) == f@),
            decreases net@[t as int].delayed_instructions@.len() - k,
        {
            let ins = net[t].delayed_instructions[k];
            if ins.is_external && map_contains_key(m, ins.transition_id) {
                let owner = crate::engine::lookup_owner(m, ins.transition_id);
                if owner.eq(f) {
                    return true;
                }
            }
            k = k + 1;
        }
        t = t + 1;
    }
    false
}

/// The nodes this net feeds, drawn from the candidate list in its order.
#[verifier::loop_isolation(false)]
pub fn derive_fed_nodes(
    net: &Vec<Transition>,
    m: &Vec<(usize, String)>,
    cands: &Vec<String>,
) -> (r: Vec<String>)
    requires
        unique_keys(m@),
        no_dup_names(names_view(cands@)),
    ensures
        no_dup_names(names_view(r@)),
        forall|f: Seq<char>|
            names_view(r@).contains(f) <==> (names_view(cands@).contains(f) && is_fed(
                net@,
                m@,
                f,
            )),
{
    let mut r: Vec<String> = Vec::new();
    let mut k: usize = 0;
    while k < cands.len()
        invariant
            k <= cands@.len(),
            no_dup_names(names_view(r@)),
            forall|f: Seq<char>|
                names_view(r@).contains(f) <==> (names_view(cands@).take(k as int).contains(f)
                    && is_fed(net@, m@, f)),
        decreases cands@.len() - k,
    {
        let ghost cv = names_view(cands@);
        proof {
            assert(cv[k as int] == cands@[k as int]@);
        }
        let fed = is_fed_exec(net, m, &cands[k]);
        let ghost rpre = names_view(r@);
        if fed {
            r.push(cands[k].clone());
            proof {
                assert(names_view(r@) =~= rpre.push(cv[k as int]));
                assert forall|a: int, b: int|
                    0 <= a < b < names_view(r@).len() implies #[trigger] names_view(r@)[a] != (
                #[trigger] names_view(r@)[b]) by {
                    if b == names_view(r@).len() - 1 {
                        assert(rpre.contains(rpre[a]));
                        assert(cv.take(k as int).contains(rpre[a]));
                        let w = choose|w: int|
                            0 <= w < k && #[trigger] cv.take(k as int)[w] == rpre[a];
                        assert(cv[w] == rpre[a]);
                        assert(cv[w] != cv[k as int]);
                    }
                }
                assert forall|f: Seq<char>|
                    names_view(r@).contains(f) implies (cv.take(k as int + 1).contains(f)
                    && is_fed(net@, m@, f)) by {
                    let w = choose|w: int|
                        0 <= w < names_view(r@).len() && #[trigger] names_view(r@)[w] == f;
                    if w < rpre.len() {
                        assert(rpre[w] == f);
                        assert(rpre.contains(f));
                        assert(cv.take(k as int).contains(f));
                        let u = choose|u: int|
                            0 <= u < k && #[trigger] cv.take(k as int)[u] == f;
                        assert(cv.take(k as int + 1)[u] == f);
                    } else {
                        assert(f == cv[k as int]);
                        assert(cv.take(k as int + 1)[k as int] == f);
                    }
                }
                assert forall|f: Seq<char>|
                    (cv.take(k as int + 1).contains(f) && is_fed(net@, m@, f)) implies names_view(
                    r@,
                ).contains(f) by {
                    let w = choose|w: int|
                        0 <= w < k + 1 && #[trigger] cv.take(k as int + 1)[w] == f;
                    if w < k as int {
                        assert(cv.take(k as int)[w] == f);
                        assert(rpre.contains(f));
                        let u = choose|u: int| 0 <= u < rpre.len() && #[trigger] rpre[u] == f;
                        assert(names_view(r@)[u] == f);
                    } else {
                        assert(names_view(r@).last() == f);
                    }
                }
            }
        } else {
            proof {
                assert forall|f: Seq<char>|
                    (cv.take(k as int + 1).contains(f) && is_fed(net@, m@, f)) implies names_view(
                    r@,
                ).contains(f) by {
                    let w = choose|w: int|
                        0 <= w < k + 1 && #[trigger] cv.take(k as int + 1)[w] == f;
                    if w < k as int {
                        assert(cv.take(k as int)[w] == f);
                    } else {
                        assert(f == cv[k as int]);
                        assert(!is_fed(net@, m@, f));
                    }
                }
                assert forall|f: Seq<char>|
                    names_view(r@).contains(f) implies (cv.take(k as int + 1).contains(f)
                    && is_fed(net@, m@, f)) by {
                    assert(cv.take(k as int).contains(f));
                    let u = choose|u: int| 0 <= u < k && #[trigger] cv.take(k as int)[u] == f;
                    assert(cv.take(k as int + 1)[u] == f);
                }
            }
        }
        k = k + 1;
    }
    proof {
        assert(names_view(cands@).take(cands@.len() as int) =~= names_view(cands@));
    }
    r
}

/// The names of the feeding-node entries, in order.
pub open spec fn feeding_names(fs: Seq<FeedingNode>) -> Seq<Seq<char>> {
    fs.map_values(|f: FeedingNode| f.name@)
}

/// The owner the positional assignment gives a transition id.
pub open spec fn cohort_owner(nets: Seq<Net>, nodesv: Seq<Seq<char>>, id: nat) -> Seq<char> {
    nodesv[choose|k: int| 0 <= k < nets.len() && net_has_id((#[trigger] nets[k]).transitions@, id)]
}

/// Validity of the net at position `idx` under the positional assignment.
pub open spec fn own_net_valid(
    nets: Seq<Net>,
    nodesv: Seq<Seq<char>>,
    idx: int,
    selfname: Seq<char>,
) -> bool {
    let net = nets[idx].transitions@;
    &&& forall|i: int, k: int|
        0 <= i < net.len() && 0 <= k < net[i].immediate_instructions@.len() ==> {
            let ins = #[trigger] net[i].immediate_instructions@[k];
            &&& !ins.is_external
            &&& net_has_id(net, ins.transition_id as nat)
        }
    &&& forall|i: int, k: int|
        0 <= i < net.len() && 0 <= k < net[i].delayed_instructions@.len() ==> {
            let ins = #[trigger] net[i].delayed_instructions@[k];
            &&& global_has(nets, ins.transition_id as nat)
            &&& (ins.is_external <==> cohort_owner(nets, nodesv, ins.transition_id as nat)
                != selfname)
        }
}

/// When construction succeeds: a non-empty cohort whose size matches the
/// net count, containing this node, with globally unique transition ids and
/// a locally valid subnet.
pub open spec fn cohort_valid(node: Seq<char>, nodesv: Seq<Seq<char>>, nets: Seq<Net>) -> bool {
    &&& nets.len() > 0
    &&& nodesv.len() > 0
    &&& nets.len() == nodesv.len()
    &&& nodesv.contains(node)
    &&& global_unique(nets)
    &&& forall|idx: int|
        0 <= idx < nodesv.len() && #[trigger] nodesv[idx] == node ==> own_net_valid(
            nets,
            nodesv,
            idx,
            node,
        )
}

/// Index of this node in the cohort list.
fn find_node_index(nodes: &Vec<String>, node: &String) -> (r: Option<usize>)
    ensures
        r matches Some(i) ==> i < nodes@.len() && names_view(nodes@)[i as int] == node@,
        r is None ==> !names_view(nodes@).contains(node@),
{
    let mut i: usize = 0;
    while i < nodes.len()
        invariant
            i <= nodes@.len(),
            forall|t: int| 0 <= t < i ==> #[trigger] names_view(nodes@)[t] != node@,
        decreases nodes@.len() - i,
    {
        if nodes[i].eq(node) {
            proof {
                assert(names_view(nodes@)[i as int] == nodes@[i as int]@);
            }
            return Some(i);
        }
        proof {
            assert(names_view(nodes@)[i as int] == nodes@[i as int]@);
        }
        i = i + 1;
    }
    proof {
        if names_view(nodes@).contains(node@) {
            let w = choose|w: int|
                0 <= w < names_view(nodes@).len() && #[trigger] names_view(nodes@)[w] == node@;
            assert(false);
        }
    }
    None
}

impl Engine {
    /// Build the engine for `node` from the cohort: `nodes` is the sorted,
    /// duplicate-free endpoint list (see [`sort_dedup_nodes`]) and `nets`
    /// the nets in net-file order, assigned positionally.  Returns the
    /// engine and one channel sender per feeding node, for the listener to
    /// route inbound lines with.  Construction succeeds exactly on a valid
    /// cohort; every failure is one of the startup errors.
    #[verifier::loop_isolation(false)]
    #[verifier::rlimit(60)]
    pub fn new(terminal_clock: usize, node: String, nodes: Vec<String>, nets: Vec<Net>) -> (r:
        Result<(Engine, Vec<(String, std::sync::mpsc::Sender<String>)>), AppError>)
        requires
            wf_name(node@),
            sorted_names(names_view(nodes@)),
            no_dup_names(names_view(nodes@)),
        ensures
            r is Ok <==> cohort_valid(node@, names_view(nodes@), nets@),
            r matches Ok(p) ==> {
                &&& p.0.wf()
                &&& p.0.clock == 0
                &&& p.0.step == 1
                &&& p.0.terminal_clock == terminal_clock
                &&& p.0.node == node
                &&& p.0.internal_active_events@.len() == 0
                &&& p.0.external_active_events@.len() == 0
                &&& exists|idx: int|
                    0 <= idx < nets@.len() && #[trigger] names_view(nodes@)[idx] == node@
                        && p.0.net.transitions@ == nets@[idx].transitions@
                &&& forall|id: nat| #[trigger] map_has(p.0.transition2node@, id) <==> global_has(
                    nets@,
                    id,
                )
                &&& forall|k: int, t: int|
                    0 <= k < nets@.len() && 0 <= t < nets@[k].transitions@.len() ==> owner_of(
                        p.0.transition2node@,
                        (#[trigger] nets@[k].transitions@[t]).id as nat,
                    ) == names_view(nodes@)[k]
                &&& valid_net(p.0.net.transitions@, p.0.transition2node@, node@)
                &&& no_dup_names(names_view(p.0.fed_nodes@))
                &&& forall|f: Seq<char>|
                    names_view(p.0.fed_nodes@).contains(f) <==> (names_view(nodes@).contains(f)
                        && is_fed(p.0.net.transitions@, p.0.transition2node@, f))
                &&& no_dup_names(feeding_names(p.0.feeding_nodes@))
                &&& forall|f: Seq<char>|
                    feeding_names(p.0.feeding_nodes@).contains(f) <==> exists|k: int|
                        0 <= k < nets@.len() && #[trigger] names_view(nodes@)[k] == f && is_fed(
                            nets@[k].transitions@,
                            p.0.transition2node@,
                            node@,
                        )
                &&& forall|i: int|
                    0 <= i < p.0.feeding_nodes@.len() ==> (
                    #[trigger] p.0.feeding_nodes@[i]).clock == 0
                &&& p.1@.len() == p.0.feeding_nodes@.len()
                &&& forall|i: int|
                    0 <= i < p.1@.len() ==> (#[trigger] p.1@[i]).0@
                        == p.0.feeding_nodes@[i].name@
            },
            r matches Err(e) ==> {
                &&& (e == AppError::NoNets || e == AppError::NoNodes || e
                    == AppError::NetCountMismatch || e == AppError::SelfNotInNodes || (
                e matches AppError::DuplicateTransition(_)) || (
                e matches AppError::MissingTransition(_)) || (
                e matches AppError::ImmediateExternal(_)) || (
                e matches AppError::ExternalityMismatch(_)))
                &&& (e == AppError::NoNets ==> nets@.len() == 0)
                &&& (e == AppError::NoNodes ==> nodes@.len() == 0)
                &&& (e == AppError::NetCountMismatch ==> nets@.len() != nodes@.len())
                &&& (e == AppError::SelfNotInNodes ==> !names_view(nodes@).contains(node@))
                &&& ((e matches AppError::DuplicateTransition(_)) ==> !global_unique(nets@))
                &&& (((e matches AppError::MissingTransition(_)) || (
                e matches AppError::ImmediateExternal(_)) || (
                e matches AppError::ExternalityMismatch(_))) ==> exists|idx: int|
                    0 <= idx < nets@.len() && #[trigger] names_view(nodes@)[idx] == node@
                        && !own_net_valid(nets@, names_view(nodes@), idx, node@))
            },
    {
        let ghost nodesv = names_view(nodes@);
        if nets.len() == 0 {
            return Err(AppError::NoNets);
        }
        if nodes.len() == 0 {
            return Err(AppError::NoNodes);
        }
        if nets.len() != nodes.len() {
            return Err(AppError::NetCountMismatch);
        }
        let idx = match find_node_index(&nodes, &node) {
            Some(i) => i,
            None => {
                return Err(AppError::SelfNotInNodes);
            },
        };
        let m = match build_owner_map(&nets, &nodes) {
            Ok(m) => m,
            Err(e) => {
                proof {
                    assert(!global_unique(nets@));
                }
                return Err(e);
            },
        };
        match validate_net(&nets[idx].transitions, &m, &node) {
            Ok(()) => {},
            Err(e) => {
                proof {
                    lemma_valid_net_positional(nets@, nodesv, idx as int, node@, m@);
                }
                return Err(e);
            },
        }
        let fed_nodes = derive_fed_nodes(&nets[idx].transitions, &m, &nodes);

        let mut feeding_nodes: Vec<FeedingNode> = Vec::new();
        let mut senders: Vec<(String, std::sync::mpsc::Sender<String>)> = Vec::new();
        let mut k: usize = 0;
        while k < nets.len()
            invariant
                k <= nets@.len(),
                nets@.len() == nodes@.len(),
                unique_keys(m@),
                no_dup_names(feeding_names(feeding_nodes@)),
                forall|f: Seq<char>|
                    feeding_names(feeding_nodes@).contains(f) <==> exists|k2: int|
                        0 <= k2 < k && #[trigger] nodesv[k2] == f && is_fed(
                            nets@[k2].transitions@,
                            m@,
                            node@,
                        ),
                senders@.len() == feeding_nodes@.len(),
                forall|i: int|
                    0 <= i < senders@.len() ==> (#[trigger] senders@[i]).0@
                        == feeding_nodes@[i].name@,
                forall|i: int|
                    0 <= i < feeding_nodes@.len() ==> (#[trigger] feeding_nodes@[i]).clock == 0,
            decreases nets@.len() - k,
        {
            proof {
                assert(nodesv[k as int] == nodes@[k as int]@);
            }
            let ghost fpre = feeding_names(feeding_nodes@);
            if is_fed_exec(&nets[k].transitions, &m, &node) {
                let (tx, rx) = make_channel();
                feeding_nodes.push(
                    FeedingNode { name: nodes[k].clone(), clock: 0, channel: rx },
                );
                senders.push((nodes[k].clone(), tx));
                proof {
                    assert(feeding_names(feeding_nodes@) =~= fpre.push(nodesv[k as int]));
                    assert forall|a: int, b: int|
                        0 <= a < b < feeding_names(feeding_nodes@).len() implies (
                    #[trigger] feeding_names(feeding_nodes@)[a]) != (
                    #[trigger] feeding_names(feeding_nodes@)[b]) by {
                        if b == feeding_names(feeding_nodes@).len() - 1 {
                            assert(fpre.contains(fpre[a]));
                            let w = choose|w: int|
                                0 <= w < k && #[trigger] nodesv[w] == fpre[a] && is_fed(
                                    nets@[w].transitions@,
                                    m@,
                                    node@,
                                );
                            assert(nodesv[w] != nodesv[k as int]);
                        }
                    }
                    assert forall|f: Seq<char>|
                        feeding_names(feeding_nodes@).contains(f) implies exists|k2: int|
                            0 <= k2 < k + 1 && #[trigger] nodesv[k2] == f && is_fed(
                                nets@[k2].transitions@,
                                m@,
                                node@,
                            ) by {
                        let w = choose|w: int|
                            0 <= w < feeding_names(feeding_nodes@).len() && #[trigger] feeding_names(
                                feeding_nodes@,
                            )[w] == f;
                        if w < fpre.len() {
                            assert(fpre[w] == f);
                            assert(fpre.contains(f));
                        } else {
                            assert(nodesv[k as int] == f);
                        }
                    }
                    assert forall|f: Seq<char>|
                        (exists|k2: int|
                            0 <= k2 < k + 1 && #[trigger] nodesv[k2] == f && is_fed(
                                nets@[k2].transitions@,
                                m@,
                                node@,
                            )) implies feeding_names(feeding_nodes@).contains(f) by {
                        let k2 = choose|k2: int|
                            0 <= k2 < k + 1 && #[trigger] nodesv[k2] == f && is_fed(
                                nets@[k2].transitions@,
                                m@,
                                node@,
                            );
                        if k2 < k as int {
                            assert(fpre.contains(f));
                            let u = choose|u: int|
                                0 <= u < fpre.len() && #[trigger] fpre[u] == f;
                            assert(feeding_names(feeding_nodes@)[u] == f);
                        } else {
                            assert(feeding_names(feeding_nodes@).last() == f);
                        }
                    }
                }
            } else {
                proof {
                    assert forall|f: Seq<char>|
                        (exists|k2: int|
                            0 <= k2 < k + 1 && #[trigger] nodesv[k2] == f && is_fed(
                                nets@[k2].transitions@,
                                m@,
                                node@,
                            )) implies feeding_names(feeding_nodes@).contains(f) by {
                        let k2 = choose|k2: int|
                            0 <= k2 < k + 1 && #[trigger] nodesv[k2] == f && is_fed(
                                nets@[k2].transitions@,
                                m@,
                                node@,
                            );
                        assert(k2 < k as int);
                    }
                }
            }
            k = k + 1;
        }

        let mut nets = nets;
        let ghost nets0 = nets@;
        let own = nets.remove(idx);
        proof {
            assert(own == nets0[idx as int]);
        }
        let engine = Engine {
            clock: 0,
            step: 1,
            node,
            net: own,
            terminal_clock,
            fed_nodes,
            feeding_nodes,
            transition2node: m,
            internal_active_events: Vec::new(),
            external_active_events: Vec::new(),
        };
        proof {
            let net = engine.net.transitions@;
            assert(net == nets0[idx as int].transitions@);
            assert forall|a: int, b: int| 0 <= a < b < net.len() implies (#[trigger] net[a]).id
                != (#[trigger] net[b]).id by {
                assert((#[trigger] nets0[idx as int].transitions@[a]).id != (
                #[trigger] nets0[idx as int].transitions@[b]).id);
            }
            assert forall|a: int, b: int|
                0 <= a < b < engine.feeding_nodes@.len() implies (
            #[trigger] engine.feeding_nodes@[a]).name@ != (
            #[trigger] engine.feeding_nodes@[b]).name@ by {
                assert(feeding_names(engine.feeding_nodes@)[a] == engine.feeding_nodes@[a].name@);
                assert(feeding_names(engine.feeding_nodes@)[b] == engine.feeding_nodes@[b].name@);
            }
            lemma_valid_net_positional(nets0, nodesv, idx as int, node@, m@);
            assert(cohort_valid(node@, nodesv, nets0)) by {
                assert forall|ix: int|
                    0 <= ix < nodesv.len() && #[trigger] nodesv[ix] == node@ implies own_net_valid(
                    nets0,
                    nodesv,
                    ix,
                    node@,
                ) by {
                    assert(ix == idx as int);
                }
            }
        }
        Ok((engine, senders))
    }
}

/// Under a complete positional owner map, validity against the map and
/// validity under the positional assignment are the same statement.
proof fn lemma_valid_net_positional(
    nets: Seq<Net>,
    nodesv: Seq<Seq<char>>,
    idx: int,
    selfname: Seq<char>,
    m: Seq<(usize, String)>,
)
    requires
        0 <= idx < nets.len(),
        nets.len() == nodesv.len(),
        global_unique(nets),
        unique_keys(m),
        forall|id: nat| #[trigger] map_has(m, id) <==> global_has(nets, id),
        forall|k: int, t: int|
            0 <= k < nets.len() && 0 <= t < nets[k].transitions@.len() ==> owner_of(
                m,
                (#[trigger] nets[k].transitions@[t]).id as nat,
            ) == nodesv[k],
    ensures
        valid_net(nets[idx].transitions@, m, selfname) == own_net_valid(
            nets,
            nodesv,
            idx,
            selfname,
        ),
{
    let net = nets[idx].transitions@;
    assert forall|id: nat| #[trigger] global_has(nets, id) implies (map_has(m, id)
        && cohort_owner(nets, nodesv, id) == owner_of(m, id)) by {
        let (k2, t2) = choose|k2: int, t2: int|
            0 <= k2 < nets.len() && 0 <= t2 < nets[k2].transitions@.len() && (
            #[trigger] nets[k2].transitions@[t2]).id == id;
        let kc = choose|k: int|
            0 <= k < nets.len() && net_has_id((#[trigger] nets[k]).transitions@, id);
        assert(net_has_id(nets[k2].transitions@, id));
        assert(net_has_id(nets[kc].transitions@, id));
        let tc = choose|j: int|
            0 <= j < nets[kc].transitions@.len() && (#[trigger] nets[kc].transitions@[j]).id
                == id;
        assert(kc == k2) by {
            if kc != k2 {
                assert(nets[kc].transitions@[tc].id == nets[k2].transitions@[t2].id);
                assert(false);
            }
        }
        assert(owner_of(m, id) == nodesv[k2]);
    }
    if valid_net(net, m, selfname) {
        assert forall|i: int, k: int|
            0 <= i < net.len() && 0 <= k < net[i].delayed_instructions@.len() implies {
            let ins = #[trigger] net[i].delayed_instructions@[k];
            &&& global_has(nets, ins.transition_id as nat)
            &&& (ins.is_external <==> cohort_owner(nets, nodesv, ins.transition_id as nat)
                != selfname)
        } by {
            let ins = net[i].delayed_instructions@[k];
            assert(map_has(m, ins.transition_id as nat));
            assert(global_has(nets, ins.transition_id as nat));
        }
    }
    if own_net_valid(nets, nodesv, idx, selfname) {
        assert forall|i: int, k: int|
            0 <= i < net.len() && 0 <= k < net[i].delayed_instructions@.len() implies {
            let ins = #[trigger] net[i].delayed_instructions@[k];
            &&& map_has(m, ins.transition_id as nat)
            &&& (ins.is_external <==> owner_of(m, ins.transition_id as nat) != selfname)
        } by {
            let ins = net[i].delayed_instructions@[k];
            assert(global_has(nets, ins.transition_id as nat));
        }
    }
}

} // verus!
