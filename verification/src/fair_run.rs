//! Runs without end, and what fair delivery brings about in them: every
//! node comes to hold every node in its stable set, and keeps it so.

use crate::id_set::NodeId;
use crate::laws::lemma_stable_set_grows;
use crate::membership::{admit_payload, is_vote_of};
use crate::node::NodeView;
use crate::quorum::{lemma_signers_finite, signers_of, spec_sign};
use crate::world::{
    admissible, admission_invariant, admit_vote, certificate_msg, deliver, deliverable,
    delivery_took_effect, everyone, founders, join_request, lemma_admission_always,
    lemma_founders, play, sound_state, valid_setup, without_handover, Envelope, World,
};
use vstd::prelude::*;

verus! {

/// The first `t` deliveries of a run.
pub open spec fn prefix(run: spec_fn(nat) -> Envelope, t: nat) -> Seq<Envelope> {
    Seq::new(t, |i: int| run(i as nat))
}

/// The world after the first `t` deliveries of a run.
pub open spec fn world_at(node: NodeView, n: nat, run: spec_fn(nat) -> Envelope, t: nat) -> World {
    play(node, n, prefix(run, t))
}

/// Whether every delivery of the run can be made when its turn comes.
pub open spec fn admissible_run(node: NodeView, n: nat, run: spec_fn(nat) -> Envelope) -> bool {
    forall|t: nat| deliverable(#[trigger] world_at(node, n, run, t), run(t))
}

/// Whether no delivery of the run is of the handover protocol.
pub open spec fn run_without_handover(run: spec_fn(nat) -> Envelope) -> bool {
    forall|t: nat| !((#[trigger] run(t)).msg is Handover)
}

/// Fair delivery: no message stays undelivered for ever. Every message that
/// is sent at some time is delivered at some time.
pub open spec fn fair(node: NodeView, n: nat, run: spec_fn(nat) -> Envelope) -> bool {
    forall|t: nat, env: Envelope|
        #[trigger] world_at(node, n, run, t).sent.contains(env) ==> exists|at: nat|
            #[trigger] run(at) == env
}

/// A fair run without handover of a network of `n` nodes with `k` founding
/// members.
pub open spec fn fair_run(node: NodeView, k: nat, n: nat, run: spec_fn(nat) -> Envelope) -> bool {
    &&& valid_setup(node, k, n)
    &&& admissible_run(node, n, run)
    &&& run_without_handover(run)
    &&& fair(node, n, run)
}

/// Whether all nodes hold all nodes in their stable sets.
pub open spec fn converged(w: World) -> bool {
    forall|j: int|
        0 <= j < w.states.len() ==> (#[trigger] w.states[j]).stable_set() == everyone(
            w.states.len(),
        )
}

proof fn lemma_world_step(node: NodeView, n: nat, run: spec_fn(nat) -> Envelope, t: nat)
    ensures
        world_at(node, n, run, t + 1) == deliver(node, world_at(node, n, run, t), run(t)),
{
    let longer = prefix(run, t + 1);
    assert(longer.drop_last() =~= prefix(run, t));
    assert(longer.last() == run(t));
}

/// Every world of a fair run without handover keeps the admission invariant.
proof fn lemma_invariant_at(
    node: NodeView,
    k: nat,
    n: nat,
    run: spec_fn(nat) -> Envelope,
    t: nat,
)
    requires
        fair_run(node, k, n, run),
    ensures
        admissible(node, n, prefix(run, t)),
        without_handover(prefix(run, t)),
        world_at(node, n, run, t).states.len() == n,
        admission_invariant(k, world_at(node, n, run, t)),
    decreases t,
{
    if t > 0 {
        lemma_invariant_at(node, k, n, run, (t - 1) as nat);
        let shorter = prefix(run, (t - 1) as nat);
        let longer = prefix(run, t);
        assert(longer.drop_last() =~= shorter);
        assert(longer.last() == run((t - 1) as nat));
        assert(deliverable(world_at(node, n, run, (t - 1) as nat), run((t - 1) as nat)));
        assert forall|x: int| 0 <= x < longer.len() implies !((#[trigger] longer[x]).msg
            is Handover) by {
            assert(longer[x] == run(x as nat));
        }
    }
    lemma_admission_always(node, k, n, prefix(run, t));
}

/// Nothing is taken back in a run: what was sent stays sent, what was
/// delivered stays delivered, and who has joined stays joined.
proof fn lemma_grows(
    node: NodeView,
    k: nat,
    n: nat,
    run: spec_fn(nat) -> Envelope,
    t: nat,
    later: nat,
)
    requires
        fair_run(node, k, n, run),
        t <= later,
    ensures
        world_at(node, n, run, t).sent.subset_of(world_at(node, n, run, later).sent),
        world_at(node, n, run, t).delivered.subset_of(world_at(node, n, run, later).delivered),
        forall|j: int|
            0 <= j < n ==> (#[trigger] world_at(node, n, run, t).states[j]).stable_set().subset_of(
                world_at(node, n, run, later).states[j].stable_set(),
            ),
    decreases later - t,
{
    lemma_invariant_at(node, k, n, run, t);
    if t < later {
        let before = (later - 1) as nat;
        lemma_grows(node, k, n, run, t, before);
        lemma_invariant_at(node, k, n, run, before);
        lemma_invariant_at(node, k, n, run, later);
        lemma_world_step(node, n, run, before);
        let w = world_at(node, n, run, before);
        let env = run(before);
        assert(deliverable(w, env));
        lemma_stable_set_grows(node, w.states[env.dst as int], env.dst, env.src, env.msg);
        assert forall|j: int| 0 <= j < n implies (#[trigger] world_at(
            node,
            n,
            run,
            t,
        ).states[j]).stable_set().subset_of(
            world_at(node, n, run, later).states[j].stable_set(),
        ) by {
            assert(world_at(node, n, run, t).states[j].stable_set().subset_of(
                w.states[j].stable_set(),
            ));
        }
    }
}

/// What is sent is delivered in the end.
proof fn lemma_delivered_in_the_end(
    node: NodeView,
    k: nat,
    n: nat,
    run: spec_fn(nat) -> Envelope,
    t: nat,
    env: Envelope,
) -> (later: nat)
    requires
        fair_run(node, k, n, run),
        world_at(node, n, run, t).sent.contains(env),
    ensures
        later >= t,
        world_at(node, n, run, later).delivered.contains(env),
{
    let at = choose|at: nat| #[trigger] run(at) == env;
    lemma_world_step(node, n, run, at);
    let later = if at + 1 >= t {
        at + 1
    } else {
        t
    };
    lemma_grows(node, k, n, run, at + 1, later);
    later
}

/// The later of two times.
pub open spec fn later_of(a: nat, b: nat) -> nat {
    if a >= b {
        a
    } else {
        b
    }
}

/// In the end every elder below `upto` has had the request of `c`.
proof fn lemma_requests_delivered(
    node: NodeView,
    k: nat,
    n: nat,
    run: spec_fn(nat) -> Envelope,
    c: NodeId,
    upto: nat,
) -> (t: nat)
    requires
        fair_run(node, k, n, run),
        k <= c < n,
        upto <= k,
    ensures
        forall|e: NodeId|
            e < upto ==> #[trigger] world_at(node, n, run, t).delivered.contains(
                Envelope { src: c, dst: e, msg: join_request(c) },
            ),
    decreases upto,
{
    if upto == 0 {
        0
    } else {
        let e = (upto - 1) as NodeId;
        let before = lemma_requests_delivered(node, k, n, run, c, (upto - 1) as nat);
        lemma_invariant_at(node, k, n, run, 0);
        let request = Envelope { src: c, dst: e, msg: join_request(c) };
        assert(world_at(node, n, run, 0).sent.contains(request));
        let mine = lemma_delivered_in_the_end(node, k, n, run, 0, request);
        let t = later_of(before, mine);
        lemma_grows(node, k, n, run, before, t);
        lemma_grows(node, k, n, run, mine, t);
        t
    }
}

/// From `from` on, in the end the vote of every elder below `upto` for `c`
/// has come to `c`, where all these elders have voted by then.
proof fn lemma_votes_delivered(
    node: NodeView,
    k: nat,
    n: nat,
    run: spec_fn(nat) -> Envelope,
    c: NodeId,
    from: nat,
    upto: nat,
) -> (t: nat)
    requires
        fair_run(node, k, n, run),
        k <= c < n,
        upto <= k,
        forall|e: int|
            0 <= e < upto ==> (#[trigger] world_at(node, n, run, from).states[e]).membership.voted.contains(
                c,
            ),
    ensures
        t >= from,
        forall|e: NodeId|
            e < upto ==> #[trigger] world_at(node, n, run, t).delivered.contains(
                Envelope { src: e, dst: c, msg: admit_vote(e, c) },
            ),
    decreases upto,
{
    if upto == 0 {
        from
    } else {
        let e = (upto - 1) as NodeId;
        let before = lemma_votes_delivered(node, k, n, run, c, from, (upto - 1) as nat);
        lemma_invariant_at(node, k, n, run, from);
        let w = world_at(node, n, run, from);
        assert(sound_state(k, w, e as int));
        assert(w.states[e as int].membership.voted.contains(c));
        let answer = Envelope { src: e, dst: c, msg: admit_vote(e, c) };
        assert(w.sent.contains(answer));
        let mine = lemma_delivered_in_the_end(node, k, n, run, from, answer);
        let t = later_of(before, mine);
        lemma_grows(node, k, n, run, before, t);
        lemma_grows(node, k, n, run, mine, t);
        t
    }
}

/// In the end every node has admitted itself.
proof fn lemma_admits_itself(
    node: NodeView,
    k: nat,
    n: nat,
    run: spec_fn(nat) -> Envelope,
    c: NodeId,
) -> (t: nat)
    requires
        fair_run(node, k, n, run),
        c < n,
    ensures
        world_at(node, n, run, t).states[c as int].stable_set().contains(c),
{
    lemma_founders(k);
    if c < k {
        lemma_invariant_at(node, k, n, run, 0);
        assert(sound_state(k, world_at(node, n, run, 0), c as int));
        assert(founders(k).contains(c));
        0
    } else {
        let asked = lemma_requests_delivered(node, k, n, run, c, k);
        lemma_invariant_at(node, k, n, run, asked);
        let w = world_at(node, n, run, asked);
        if w.states[c as int].stable_set().contains(c) {
            asked
        } else if exists|e: NodeId|
            e < k && (#[trigger] w.states[e as int]).stable_set().contains(c) {
            // An elder holds `c` already: it has told `c`, or will.
            let e = choose|e: NodeId|
                e < k && (#[trigger] w.states[e as int]).stable_set().contains(c);
            assert(sound_state(k, w, e as int));
            let at_e = w.states[e as int].membership;
            let x = choose|x: int|
                0 <= x < at_e.certificates.len() && (#[trigger] at_e.certificates[x]).candidate
                    == c;
            let told = Envelope { src: e, dst: c, msg: certificate_msg(at_e.certificates[x]) };
            assert(w.sent.contains(told));
            let t = lemma_delivered_in_the_end(node, k, n, run, asked, told);
            lemma_invariant_at(node, k, n, run, t);
            assert(delivery_took_effect(k, world_at(node, n, run, t), told));
            t
        } else {
            // Every elder has voted.
            assert forall|e: int| 0 <= e < k implies (
            #[trigger] w.states[e]).membership.voted.contains(c) by {
                let request = Envelope { src: c, dst: e as NodeId, msg: join_request(c) };
                assert(w.delivered.contains(request));
                assert(delivery_took_effect(k, w, request));
                assert(!w.states[e as NodeId as int].stable_set().contains(c));
            }
            let t = lemma_votes_delivered(node, k, n, run, c, asked, k);
            lemma_invariant_at(node, k, n, run, t);
            let w2 = world_at(node, n, run, t);
            let m = w2.states[c as int].membership;
            if !m.stable_set.contains(c) {
                assert(sound_state(k, w2, c as int));
                let held = m.votes_for(founders(k), c);
                assert forall|e: NodeId| founders(k).contains(e) implies signers_of(
                    held,
                ).contains(e) by {
                    let answer = Envelope { src: e, dst: c, msg: admit_vote(e, c) };
                    assert(w2.delivered.contains(answer));
                    assert(delivery_took_effect(k, w2, answer));
                    let vote = spec_sign(e, admit_payload(c));
                    assert(m.votes.contains(vote));
                    let v = choose|v: int| 0 <= v < m.votes.len() && m.votes[v] == vote;
                    m.votes.lemma_filter_contains(is_vote_of(founders(k), c), v);
                    let h = choose|h: int| 0 <= h < held.len() && held[h] == vote;
                    assert(held[h].signer == e);
                }
                lemma_signers_finite(held);
                vstd::set_lib::lemma_len_subset(founders(k), signers_of(held));
                assert forall|v: int| 0 <= v < held.len() implies #[trigger] held[v] == spec_sign(
                    held[v].signer,
                    admit_payload(c),
                ) && founders(k).contains(held[v].signer) by {
                    m.votes.lemma_filter_pred(is_vote_of(founders(k), c), v);
                }
                assert(m.has_quorum_for(founders(k), c));
            }
            t
        }
    }
}

/// In the end the first elder has admitted every node.
proof fn lemma_first_elder_admits(
    node: NodeView,
    k: nat,
    n: nat,
    run: spec_fn(nat) -> Envelope,
    c: NodeId,
) -> (t: nat)
    requires
        fair_run(node, k, n, run),
        c < n,
    ensures
        world_at(node, n, run, t).states[0].stable_set().contains(c),
{
    let own = lemma_admits_itself(node, k, n, run, c);
    lemma_invariant_at(node, k, n, run, own);
    let w = world_at(node, n, run, own);
    assert(sound_state(k, w, 0));
    assert(sound_state(k, w, c as int));
    if c < k {
        assert(founders(k).contains(c));
        own
    } else {
        let m = w.states[c as int].membership;
        let first: NodeId = 0;
        assert(founders(k).contains(first));
        let x = choose|x: int|
            0 <= x < m.certificates.len() && (#[trigger] m.certificates[x]).candidate == c;
        let told = Envelope { src: c, dst: first, msg: certificate_msg(m.certificates[x]) };
        assert(w.sent.contains(told));
        let t = lemma_delivered_in_the_end(node, k, n, run, own, told);
        lemma_invariant_at(node, k, n, run, t);
        assert(delivery_took_effect(k, world_at(node, n, run, t), told));
        t
    }
}

/// In the end node `j` has admitted node `c`.
proof fn lemma_admits(
    node: NodeView,
    k: nat,
    n: nat,
    run: spec_fn(nat) -> Envelope,
    c: NodeId,
    j: NodeId,
) -> (t: nat)
    requires
        fair_run(node, k, n, run),
        c < n,
        j < n,
    ensures
        world_at(node, n, run, t).states[j as int].stable_set().contains(c),
{
    let first: NodeId = 0;
    let knows_c = lemma_first_elder_admits(node, k, n, run, c);
    let knows_j = lemma_first_elder_admits(node, k, n, run, j);
    let both = later_of(knows_c, knows_j);
    lemma_grows(node, k, n, run, knows_c, both);
    lemma_grows(node, k, n, run, knows_j, both);
    lemma_invariant_at(node, k, n, run, both);
    let w = world_at(node, n, run, both);
    assert(world_at(node, n, run, knows_c).states[0].stable_set().subset_of(
        w.states[0].stable_set(),
    ));
    assert(world_at(node, n, run, knows_j).states[0].stable_set().subset_of(
        w.states[0].stable_set(),
    ));
    assert(sound_state(k, w, 0));
    assert(sound_state(k, w, j as int));
    if c < k {
        assert(founders(k).contains(c));
        both
    } else {
        let at_first = w.states[0].membership;
        let x = choose|x: int|
            0 <= x < at_first.certificates.len() && (
            #[trigger] at_first.certificates[x]).candidate == c;
        let told = Envelope {
            src: first,
            dst: j,
            msg: certificate_msg(at_first.certificates[x]),
        };
        assert(w.sent.contains(told));
        let t = lemma_delivered_in_the_end(node, k, n, run, both, told);
        lemma_invariant_at(node, k, n, run, t);
        assert(delivery_took_effect(k, world_at(node, n, run, t), told));
        t
    }
}

/// In the end node `j` has admitted every node below `upto`.
proof fn lemma_admits_all_below(
    node: NodeView,
    k: nat,
    n: nat,
    run: spec_fn(nat) -> Envelope,
    j: NodeId,
    upto: nat,
) -> (t: nat)
    requires
        fair_run(node, k, n, run),
        j < n,
        upto <= n,
    ensures
        forall|c: NodeId|
            c < upto ==> #[trigger] world_at(node, n, run, t).states[j as int].stable_set().contains(
                c,
            ),
    decreases upto,
{
    if upto == 0 {
        0
    } else {
        let c = (upto - 1) as NodeId;
        let before = lemma_admits_all_below(node, k, n, run, j, (upto - 1) as nat);
        let mine = lemma_admits(node, k, n, run, c, j);
        let t = later_of(before, mine);
        lemma_grows(node, k, n, run, before, t);
        lemma_grows(node, k, n, run, mine, t);
        assert(world_at(node, n, run, before).states[j as int].stable_set().subset_of(
            world_at(node, n, run, t).states[j as int].stable_set(),
        ));
        assert(world_at(node, n, run, mine).states[j as int].stable_set().subset_of(
            world_at(node, n, run, t).states[j as int].stable_set(),
        ));
        t
    }
}

/// In the end every node below `upto` has admitted every node.
proof fn lemma_all_below_admit_all(
    node: NodeView,
    k: nat,
    n: nat,
    run: spec_fn(nat) -> Envelope,
    upto: nat,
) -> (t: nat)
    requires
        fair_run(node, k, n, run),
        upto <= n,
    ensures
        forall|j: int, c: NodeId|
            0 <= j < upto && c < n ==> #[trigger] world_at(
                node,
                n,
                run,
                t,
            ).states[j].stable_set().contains(c),
    decreases upto,
{
    if upto == 0 {
        0
    } else {
        let j = (upto - 1) as NodeId;
        let before = lemma_all_below_admit_all(node, k, n, run, (upto - 1) as nat);
        let mine = lemma_admits_all_below(node, k, n, run, j, n);
        let t = later_of(before, mine);
        lemma_grows(node, k, n, run, before, t);
        lemma_grows(node, k, n, run, mine, t);
        assert forall|i: int, c: NodeId| 0 <= i < upto && c < n implies #[trigger] world_at(
            node,
            n,
            run,
            t,
        ).states[i].stable_set().contains(c) by {
            if i < upto - 1 {
                assert(world_at(node, n, run, before).states[i].stable_set().contains(c));
                assert(world_at(node, n, run, before).states[i].stable_set().subset_of(
                    world_at(node, n, run, t).states[i].stable_set(),
                ));
            } else {
                assert(world_at(node, n, run, mine).states[j as int].stable_set().contains(c));
                assert(world_at(node, n, run, mine).states[j as int].stable_set().subset_of(
                    world_at(node, n, run, t).states[j as int].stable_set(),
                ));
            }
        }
        t
    }
}

/// Convergence under fair delivery: in every fair run without handover
/// there is a time from which on every node's stable set is the set of all
/// nodes, so that all nodes hold the same stable set and every node is part
/// of it, and this remains so in every later world.
pub proof fn lemma_fair_run_converges(
    node: NodeView,
    k: nat,
    n: nat,
    run: spec_fn(nat) -> Envelope,
) -> (from: nat)
    requires
        fair_run(node, k, n, run),
    ensures
        forall|t: nat|
            t >= from ==> converged(#[trigger] world_at(node, n, run, t)) && world_at(
                node,
                n,
                run,
                t,
            ).states.len() == n && crate::props::stable_set_converged(
                world_at(node, n, run, t).states,
            ) && crate::props::each_node_joined(world_at(node, n, run, t).states),
{
    let from = lemma_all_below_admit_all(node, k, n, run, n);
    assert forall|t: nat| t >= from implies converged(#[trigger] world_at(node, n, run, t))
        && world_at(node, n, run, t).states.len() == n && crate::props::stable_set_converged(
        world_at(node, n, run, t).states,
    ) && crate::props::each_node_joined(world_at(node, n, run, t).states) by {
        let w = world_at(node, n, run, t);
        lemma_grows(node, k, n, run, from, t);
        lemma_invariant_at(node, k, n, run, t);
        assert forall|j: int| 0 <= j < w.states.len() implies (#[trigger] w.states[j]).stable_set()
            == everyone(n) by {
            assert(sound_state(k, w, j));
            assert(world_at(node, n, run, from).states[j].stable_set().subset_of(
                w.states[j].stable_set(),
            ));
            assert forall|c: NodeId| c < n implies w.states[j].stable_set().contains(c) by {
                assert(world_at(node, n, run, from).states[j].stable_set().contains(c));
            }
            assert(w.states[j].stable_set() =~= everyone(n));
        }
    }
    from
}

} // verus!
