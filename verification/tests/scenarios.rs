use elder_quorum::id_set::IdSet;
use elder_quorum::ledger::RemainderPolicy;
use elder_quorum::node::{Msg, Node, State};
use elder_quorum::outbound::Outbound;
use elder_quorum::props::{
    prop_all_nodes_joined, prop_no_double_spend, prop_stable_set_converged,
    prop_unspent_outputs_equals_genesis_amount,
};
use elder_quorum::transaction::{Dbc, Provenance, Transaction};

/// How the substrate picks the next message to deliver.
#[derive(Clone, Copy)]
enum Order {
    Oldest,
    Newest,
    Shuffled(u64),
}

struct Network {
    configs: Vec<Node>,
    states: Vec<State>,
    in_flight: Vec<(u64, u64, Msg)>,
    certified: Vec<Transaction>,
    order: Order,
    /// One message in `lose_every` is lost; 0 loses none.
    lose_every: u64,
    handled: u64,
}

impl Network {
    fn start(elder_count: u64, server_count: u64, order: Order, lose_every: u64) -> Network {
        let mut net = Network {
            configs: Vec::new(),
            states: Vec::new(),
            in_flight: Vec::new(),
            certified: Vec::new(),
            order,
            lose_every,
            handled: 0,
        };
        for i in 0..server_count {
            let config = Node {
                genesis_nodes: IdSet::first(elder_count),
                peers: (0..server_count).filter(|p| *p != i).collect(),
                genesis_amount: 100,
                policy: RemainderPolicy::Reject,
                reissue_on_start: false,
            };
            let (state, out) = config.on_start(i);
            net.configs.push(config);
            net.states.push(state);
            net.send(i, out);
        }
        net
    }

    fn send(&mut self, src: u64, out: Vec<Outbound<Msg>>) {
        for o in out {
            if let Msg::Wallet(elder_quorum::wallet::Msg::ReissueCertificate { tx, .. }) = &o.msg {
                if !self.certified.contains(tx) {
                    self.certified.push(tx.clone());
                }
            }
            for dst in o.to.to_vec() {
                self.in_flight.push((src, dst, o.msg.clone()));
            }
        }
    }

    fn pick(&mut self) -> usize {
        match self.order {
            Order::Oldest => 0,
            Order::Newest => self.in_flight.len() - 1,
            Order::Shuffled(seed) => {
                let next = seed
                    .wrapping_mul(6364136223846793005)
                    .wrapping_add(1442695040888963407);
                self.order = Order::Shuffled(next);
                ((next >> 33) as usize) % self.in_flight.len()
            }
        }
    }

    fn check_safety(&self) {
        assert!(prop_unspent_outputs_equals_genesis_amount(&self.states));
        assert!(prop_no_double_spend(&self.states));
        for s in &self.states {
            assert_eq!(s.wallet.ledger.sum_unspent_outputs(), 100);
        }
        assert!(self.certified.len() <= 1);
    }

    /// Delivers one message; says whether there was one.
    fn step(&mut self) -> bool {
        if self.in_flight.is_empty() {
            return false;
        }
        let at = self.pick();
        let (src, dst, msg) = self.in_flight.remove(at);
        self.handled += 1;
        let lost = self.lose_every != 0 && self.handled % self.lose_every == 0;
        if !lost && (dst as usize) < self.states.len() {
            let out = self.configs[dst as usize].on_msg(dst, &mut self.states[dst as usize], src, msg);
            self.send(dst, out);
        }
        self.check_safety();
        true
    }

    fn run(&mut self) {
        let mut steps = 0;
        while self.step() {
            steps += 1;
            assert!(steps < 100_000);
        }
    }

    fn start_reissue(&mut self, node: u64) {
        self.in_flight.push((node, node, Msg::StartReissue));
    }

    fn stable_sets(&self) -> Vec<Vec<u64>> {
        self.states.iter().map(|s| s.membership.stable_set().ids()).collect()
    }

    fn spenders_of_genesis(&self) -> Vec<Transaction> {
        let genesis = Dbc { amount: 100, provenance: Provenance::Genesis };
        let mut found: Vec<Transaction> = Vec::new();
        for s in &self.states {
            if let Some(tx) = s.wallet.ledger.spent_by(genesis) {
                if !found.contains(&tx) {
                    found.push(tx);
                }
            }
        }
        found
    }
}

fn orders() -> Vec<Order> {
    let mut all = vec![Order::Oldest, Order::Newest];
    for seed in 1..40 {
        all.push(Order::Shuffled(seed));
    }
    all
}

#[test]
fn two_elders_and_two_newcomers_all_join() {
    for order in orders() {
        let mut net = Network::start(2, 4, order, 0);
        assert_eq!(net.stable_sets()[2], vec![0, 1]);
        net.run();
        assert_eq!(net.stable_sets(), vec![vec![0, 1, 2, 3]; 4]);
        assert!(prop_stable_set_converged(&net.states));
        assert!(prop_all_nodes_joined(&net.states));
    }
}

#[test]
fn the_stable_set_only_grows_along_a_run() {
    let mut net = Network::start(2, 4, Order::Shuffled(7), 0);
    let mut before = net.stable_sets();
    while net.step() {
        let after = net.stable_sets();
        for (b, a) in before.iter().zip(after.iter()) {
            assert!(b.iter().all(|id| a.contains(id)));
        }
        before = after;
    }
}

#[test]
fn a_larger_network_converges_under_every_order_tried() {
    for order in orders() {
        let mut net = Network::start(3, 7, order, 0);
        net.run();
        assert_eq!(net.stable_sets(), vec![vec![0, 1, 2, 3, 4, 5, 6]; 7]);
        assert!(prop_stable_set_converged(&net.states));
        assert!(prop_all_nodes_joined(&net.states));
    }
}

#[test]
fn lost_messages_never_admit_a_node_without_a_quorum() {
    for lose_every in 2..6 {
        for order in orders() {
            let mut net = Network::start(3, 6, order, lose_every);
            net.run();
            for (i, set) in net.stable_sets().iter().enumerate() {
                assert!(set.starts_with(&[0, 1, 2]));
                for member in set {
                    assert!(*member < 6, "node {} holds {}", i, member);
                }
            }
        }
    }
}

#[test]
fn five_reissues_of_the_genesis_certificate_balance_at_every_step() {
    for order in orders() {
        let mut net = Network::start(1, 5, order, 0);
        for k in 0..5 {
            net.start_reissue(k);
        }
        net.run();
        for s in &net.states {
            assert_eq!(s.wallet.ledger.sum_unspent_outputs(), 100);
            assert_eq!(s.wallet.ledger.genesis_amount(), 100);
        }
        let spenders = net.spenders_of_genesis();
        assert_eq!(spenders.len(), 1);
        let k = spenders[0].id.issuer;
        assert_eq!(spenders[0].outputs, vec![k, 100 - k]);
        assert_eq!(net.certified, spenders);
    }
}

#[test]
fn one_node_reissues_alone_and_all_nodes_learn_of_it() {
    for k in 0..5 {
        let mut net = Network::start(1, 5, Order::Oldest, 0);
        net.run();
        net.start_reissue(k);
        net.run();
        for s in &net.states {
            assert_eq!(s.wallet.ledger.sum_unspent_outputs(), 100);
            let unspent: Vec<u64> = s.wallet.ledger.unspent().iter().map(|d| d.amount).collect();
            assert_eq!(unspent, vec![k, 100 - k]);
            assert_eq!(s.wallet.pending_tx, None);
        }
    }
}

#[test]
fn two_reissues_of_one_certificate_finalize_at_most_one() {
    for elder_count in 1..6 {
        for order in orders() {
            let mut net = Network::start(elder_count, 6, order, 0);
            net.start_reissue(4);
            net.start_reissue(5);
            net.run();
            assert!(net.certified.len() <= 1);
            assert!(net.spenders_of_genesis().len() <= 1);
            assert!(prop_no_double_spend(&net.states));
        }
    }
}

#[test]
fn with_one_elder_exactly_one_of_two_reissues_is_finalized() {
    for order in orders() {
        let mut net = Network::start(1, 3, order, 0);
        net.start_reissue(1);
        net.start_reissue(2);
        net.run();
        assert_eq!(net.certified.len(), 1);
        let winner = net.certified[0].id.issuer;
        assert!(winner == 1 || winner == 2);
        assert_eq!(net.certified[0].outputs, vec![winner, 100 - winner]);
    }
}

#[test]
fn lost_messages_never_let_two_reissues_through() {
    for lose_every in 2..5 {
        for order in orders() {
            let mut net = Network::start(3, 5, order, lose_every);
            for k in 0..5 {
                net.start_reissue(k);
            }
            net.run();
            assert!(net.certified.len() <= 1);
            assert!(net.spenders_of_genesis().len() <= 1);
        }
    }
}
