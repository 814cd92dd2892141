use mz_rs::config::SearchAlgorithm;
use mz_rs::extract::SearchReturn;
use mz_rs::gumbel::{SearchParams, gumbel_search, value_sign};
use mz_rs::search::{ImprovedPolicy, Predictions, SearchModel, VisitShares, batched_search, search};
use mz_rs::single::Single;
use mz_rs::tree::SearchTree;
use mz_rs::utils::QNormalization;

fn single(x: f32) -> Single {
    Single::from_bits(x.to_bits())
}

fn float(s: Single) -> f32 {
    f32::from_bits(s.to_bits())
}

fn singles(xs: &[f32]) -> Vec<Single> {
    xs.iter().map(|&x| single(x)).collect()
}

fn floats(xs: &[Single]) -> Vec<f32> {
    xs.iter().map(|&x| float(x)).collect()
}

fn softmax(values: &mut [f32]) {
    let max = values.iter().copied().fold(f32::NEG_INFINITY, f32::max);
    let mut sum = 0.0f32;
    for v in values.iter_mut() {
        *v = (*v - max).exp();
        sum += *v;
    }
    for v in values.iter_mut() {
        *v /= sum;
    }
}

fn masked_softmax(logits: &[f32], mask: Option<&[bool]>) -> Vec<f32> {
    let mut out: Vec<f32> = logits
        .iter()
        .enumerate()
        .map(|(a, &l)| if mask.map_or(true, |m| m[a]) { l } else { f32::NEG_INFINITY })
        .collect();
    softmax(&mut out);
    out
}

/// A network whose hidden state is one number, and which answers by a few sines.
struct Toy {
    action_space: usize,
    algorithm: SearchAlgorithm,
    discount: f32,
    sign: f32,
    c_visit: f32,
    c_scale: f32,
    tau: f32,
    hidden: Vec<f32>,
    norms: Vec<QNormalization>,
    requests: usize,
    /// Leaves one entry out of the answer to this request.
    short_answer: Option<usize>,
}

impl Toy {
    fn new(action_space: usize, algorithm: SearchAlgorithm, tau: f32) -> Toy {
        Toy {
            action_space,
            algorithm,
            discount: 0.997,
            sign: float(value_sign(false)),
            c_visit: 50.0,
            c_scale: 0.1,
            tau,
            hidden: Vec::new(),
            norms: Vec::new(),
            requests: 0,
            short_answer: None,
        }
    }

    fn predict(&self, hidden: f32) -> (f32, f32, Vec<f32>) {
        let logits = (0..self.action_space).map(|a| (hidden * 3.0 + a as f32 * 1.7).sin()).collect();
        ((hidden * 5.0).cos() * 0.3, (hidden * 2.0).sin(), logits)
    }

    /// The predictions for observations; the hidden states of the searched ones come first.
    fn roots(&mut self, obs: &[f32], masks: Option<&Vec<Vec<bool>>>) -> Predictions {
        let mut p = Predictions { rewards: vec![], values: vec![], priors: vec![], logits: vec![] };
        for (i, &h) in obs.iter().enumerate() {
            let (_, value, logits) = self.predict(h);
            let mask = masks.map(|m| m[i].as_slice());
            p.rewards.push(single(0.0));
            p.values.push(single(value));
            p.priors.push(singles(&masked_softmax(&logits, mask)));
            p.logits.push(singles(&logits));
            let open = mask.map_or(true, |m| m.iter().filter(|&&l| l).count() != 1);
            if open {
                self.hidden.push(h);
                self.norms.push(QNormalization::default());
            }
        }
        p
    }

    fn child_q(&self, tree: &SearchTree, child: usize) -> f32 {
        let c = &tree.nodes[child];
        float(c.reward) + self.discount * self.sign * float(c.cumulative_value) / c.visits as f32
    }

    fn completed(&self, tree: &SearchTree, node: usize) -> (usize, f32, Vec<f32>) {
        let first = tree.nodes[node].first_child;
        let (sum_visits, max_visits) = tree.completed_visits(node);
        let children = first..first + tree.action_space;
        let visited: Vec<usize> = children.clone().filter(|&c| tree.nodes[c].visits > 0).collect();
        let sum_priors: f32 = visited.iter().map(|&c| float(tree.nodes[c].prior)).sum();
        let weighted: f32 = visited
            .iter()
            .map(|&c| float(tree.nodes[c].prior) * self.child_q(tree, c))
            .sum();
        let raw = float(tree.nodes[node].value);
        let mixed = if sum_visits == 0 || sum_priors <= 0.0 {
            raw
        } else {
            (raw + sum_visits as f32 * weighted / sum_priors) / (sum_visits as f32 + 1.0)
        };
        let q: Vec<f32> = children
            .map(|c| if tree.nodes[c].visits == 0 { mixed } else { self.child_q(tree, c) })
            .collect();
        let min = q.iter().copied().fold(f32::INFINITY, f32::min);
        let max = q.iter().copied().fold(f32::NEG_INFINITY, f32::max);
        let scale = (self.c_visit + max_visits as f32) * self.c_scale;
        let scaled = q.iter().map(|q| scale * (q - min) / (max - min + 1e-8)).collect();
        (sum_visits, mixed, scaled)
    }
}

impl SearchModel for Toy {
    fn score(&mut self, i: usize, tree: &SearchTree, node: usize) -> Vec<Single> {
        let first = tree.nodes[node].first_child;
        let children = first..first + tree.action_space;
        match self.algorithm {
            SearchAlgorithm::Puct => {
                let pv = tree.nodes[node].visits as f32;
                let exploration = pv.sqrt() * (1.25 + ((pv + 19652.0 + 1.0) / 19652.0).ln());
                children
                    .map(|c| {
                        let n = tree.nodes[c].visits;
                        let q = if n == 0 {
                            0.0
                        } else {
                            let q = self.child_q(tree, c);
                            let norm = &self.norms[i];
                            let (min, max) = (float(norm.q_min), float(norm.q_max));
                            float(norm.normalize(single(q), single((q - min) / (max - min))))
                        };
                        single(q + float(tree.nodes[c].prior) * exploration / (1 + n) as f32)
                    })
                    .collect()
            }
            SearchAlgorithm::Gumbel => {
                let (sum_visits, _, scaled) = self.completed(tree, node);
                let sums: Vec<f32> =
                    children.clone().zip(&scaled).map(|(c, q)| float(tree.nodes[c].logit) + q).collect();
                if node == 0 {
                    return singles(&sums);
                }
                let mut policy = sums;
                softmax(&mut policy);
                let denom = 1.0 + sum_visits as f32;
                children
                    .zip(policy)
                    .map(|(c, p)| single(p - tree.nodes[c].visits as f32 / denom))
                    .collect()
            }
        }
    }

    fn recurrent_inference(&mut self, rows: &Vec<i64>, actions: &Vec<i64>) -> Predictions {
        let mut p = Predictions { rewards: vec![], values: vec![], priors: vec![], logits: vec![] };
        for (&row, &action) in rows.iter().zip(actions) {
            let h = (self.hidden[row as usize] * 1.3 + action as f32 * 0.7).sin();
            let (reward, value, logits) = self.predict(h);
            self.hidden.push(h);
            p.rewards.push(single(reward));
            p.values.push(single(value));
            p.priors.push(singles(&masked_softmax(&logits, None)));
            p.logits.push(singles(&logits));
        }
        self.requests += 1;
        if self.short_answer == Some(self.requests) {
            p.values.pop();
        }
        p
    }

    fn back_up(&mut self, i: usize, tree: &SearchTree, reward: Single, value: Single) -> Vec<Single> {
        let mut sums = vec![single(0.0); tree.path.len()];
        let mut back = float(value);
        for (j, &node) in tree.path.iter().enumerate().rev() {
            let n = &tree.nodes[node];
            let r = if j + 1 == tree.path.len() { float(reward) } else { float(n.reward) };
            let sum = float(n.cumulative_value) + back;
            let mean = sum / (n.visits + 1) as f32;
            self.norms[i].update(single(r + self.discount * self.sign * mean));
            sums[j] = single(sum);
            back = r + self.discount * self.sign * back;
        }
        sums
    }

    fn visit_shares(&mut self, _i: usize, tree: &SearchTree) -> VisitShares {
        let root = &tree.nodes[0];
        let children = &tree.nodes[1..1 + tree.action_space];
        let legal = |f: &dyn Fn(f32) -> f32| -> f32 {
            children.iter().filter(|c| c.legal).map(|c| f(c.visits as f32)).sum()
        };
        let total = legal(&|n| n);
        let tau = self.tau;
        let power_sum = legal(&|n| n.powf(1.0 / tau));
        VisitShares {
            mean: single(float(root.cumulative_value) / root.visits as f32),
            shares: children.iter().map(|c| single(c.visits as f32 / total)).collect(),
            powers: children
                .iter()
                .map(|c| single((c.visits as f32).powf(1.0 / tau) / power_sum))
                .collect(),
            power_sum: single(power_sum),
        }
    }

    fn improved_policy(&mut self, _i: usize, tree: &SearchTree) -> ImprovedPolicy {
        let (_, mixed, scaled) = self.completed(tree, 0);
        let sums: Vec<f32> =
            (0..tree.action_space).map(|a| float(tree.nodes[1 + a].logit) + scaled[a]).collect();
        let mut policy = sums.clone();
        softmax(&mut policy);
        ImprovedPolicy { mixed_value: single(mixed), policy: singles(&policy), scores: singles(&sums) }
    }
}

fn run(
    algorithm: SearchAlgorithm,
    action_space: usize,
    num_simulations: usize,
    masks: Option<&Vec<Vec<bool>>>,
    obs: &[f32],
    tau: f32,
) -> Vec<SearchReturn> {
    let mut model = Toy::new(action_space, algorithm, tau);
    let roots = model.roots(obs, masks);
    batched_search(
        algorithm,
        16.min(action_space),
        action_space,
        num_simulations,
        0,
        masks,
        &roots,
        single(tau),
        &mut model,
    )
    .expect("the model answers in full")
}

fn total(xs: &[Single]) -> f32 {
    floats(xs).iter().sum()
}

#[test]
fn search_batched_search_valid_distributions() {
    for (algorithm, simulations) in [(SearchAlgorithm::Puct, 50), (SearchAlgorithm::Gumbel, 16)] {
        let action_space = 2;
        let batch_size = 3;
        for tau in [0.0, 1.0] {
            let results =
                run(algorithm, action_space, simulations, None, &[-0.4, 0.1, 0.9], tau);
            assert_eq!(results.len(), batch_size);
            for res in &results {
                assert_eq!(res.distribution.len(), action_space);
                let sum = total(&res.distribution);
                assert!((sum - 1.0).abs() < 1e-4, "distribution sums to {sum}");
                let target_sum = total(&res.policy_target);
                assert!((target_sum - 1.0).abs() < 1e-4, "target sums to {target_sum}");
                assert!(res.best_action < action_space);
                assert!(float(res.value).is_finite());
            }
        }
    }
}

#[test]
fn search_batched_batched_search_valid_distributions() {
    for tau in [0.0, 0.5, 1.0] {
        let results = run(SearchAlgorithm::Puct, 4, 32, None, &[-0.7, 0.3, 0.5], tau);
        assert_eq!(results.len(), 3);
        for res in &results {
            assert_eq!(res.distribution.len(), 4);
            let sum = total(&res.distribution);
            assert!((sum - 1.0).abs() < 1e-4, "distribution sums to {sum}");
            assert!(res.best_action < 4);
            assert!(float(res.value).is_finite());
        }
    }
}

#[test]
fn batched_search_single_legal_action() {
    for algorithm in [SearchAlgorithm::Puct, SearchAlgorithm::Gumbel] {
        let action_space = 4;
        let mut forced_mask = vec![false; action_space];
        forced_mask[1] = true;
        let masks = vec![forced_mask, vec![true; action_space]];

        let results = run(algorithm, action_space, 16, Some(&masks), &[0.2, 0.6], 1.0);
        assert_eq!(results.len(), 2);
        assert_eq!(results[0].best_action, 1);
        assert_eq!(float(results[0].distribution[1]), 1.0);
        let sum = total(&results[0].distribution);
        assert!((sum - 1.0).abs() < 1e-6);
        assert!(float(results[0].value).is_finite());
        assert_eq!(float(results[0].value), (0.2f32 * 2.0).sin());

        let sum = total(&results[1].distribution);
        assert!((sum - 1.0).abs() < 1e-4);
        assert!(results[1].best_action < action_space);
    }
}

#[test]
fn search_batched_search_visits_match_simulations() {
    let results = run(SearchAlgorithm::Puct, 2, 50, None, &[-0.1, 0.8], 1.0);
    for res in &results {
        assert!(floats(&res.distribution).iter().all(|p| (0.0..=1.0).contains(p)));
    }
}

#[test]
fn search_batched_batched_search_visits_match_simulations() {
    // Every share is a whole number of simulations.
    let results = run(SearchAlgorithm::Puct, 4, 32, None, &[-0.1, 0.8], 1.0);
    for res in &results {
        for p in floats(&res.distribution) {
            let visits = p * 32.0;
            assert!((visits - visits.round()).abs() < 1e-3);
        }
        let sum = total(&res.distribution);
        assert!((sum - 1.0).abs() < 1e-4);
    }
}

#[test]
fn gumbel_respects_legal_mask() {
    let action_space = 6;
    let mut mask = vec![false; action_space];
    mask[2] = true;
    mask[5] = true;
    let masks = vec![mask; 4];

    let results =
        run(SearchAlgorithm::Gumbel, action_space, 8, Some(&masks), &[-0.6, -0.1, 0.4, 0.8], 1.0);
    for res in &results {
        assert!(res.best_action == 2 || res.best_action == 5);
        for (action, p) in floats(&res.policy_target).into_iter().enumerate() {
            if action != 2 && action != 5 {
                assert_eq!(p, 0.0, "illegal action {action} has mass {p}");
            }
        }
        let sum = total(&res.policy_target);
        assert!((sum - 1.0).abs() < 1e-4, "target sums to {sum}");
    }
}

#[test]
fn gumbel_single_simulation_is_valid() {
    let action_space = 2;
    let results = run(SearchAlgorithm::Gumbel, action_space, 1, None, &[-0.3, 0.5], 1.0);
    for res in &results {
        assert!(res.best_action < action_space);
        assert!(float(res.value).is_finite());
        assert!(floats(&res.policy_target).iter().all(|p| p.is_finite()));
        let sum = total(&res.policy_target);
        assert!((sum - 1.0).abs() < 1e-4, "target sums to {sum}");
    }
}

#[test]
fn equal_searches_give_equal_results() {
    for algorithm in [SearchAlgorithm::Puct, SearchAlgorithm::Gumbel] {
        let first = run(algorithm, 4, 12, None, &[0.2, -0.6], 1.0);
        let second = run(algorithm, 4, 12, None, &[0.2, -0.6], 1.0);
        for (a, b) in first.iter().zip(&second) {
            assert_eq!(a.best_action, b.best_action);
            assert_eq!((a.value, &a.distribution), (b.value, &b.distribution));
            assert_eq!(a.policy_target, b.policy_target);
        }
    }
}

#[test]
fn halving_has_no_temperature() {
    let cold = run(SearchAlgorithm::Gumbel, 4, 12, None, &[0.2], 0.0);
    let warm = run(SearchAlgorithm::Gumbel, 4, 12, None, &[0.2], 1.0);
    assert_eq!(cold[0].best_action, warm[0].best_action);
    assert_eq!(cold[0].distribution, warm[0].distribution);
    assert_eq!(total(&cold[0].distribution), 1.0);
    assert_eq!(float(cold[0].distribution[cold[0].best_action]), 1.0);
}

/// A model to which all actions are the same.
struct Even(usize);

impl SearchModel for Even {
    fn score(&mut self, _i: usize, _tree: &SearchTree, _node: usize) -> Vec<Single> {
        vec![single(0.5); self.0]
    }

    fn recurrent_inference(&mut self, rows: &Vec<i64>, _actions: &Vec<i64>) -> Predictions {
        Predictions {
            rewards: vec![single(0.0); rows.len()],
            values: vec![single(0.0); rows.len()],
            priors: vec![vec![single(0.5); self.0]; rows.len()],
            logits: vec![vec![single(0.0); self.0]; rows.len()],
        }
    }

    fn back_up(&mut self, _i: usize, tree: &SearchTree, _r: Single, _v: Single) -> Vec<Single> {
        vec![single(0.0); tree.path.len()]
    }

    fn visit_shares(&mut self, _i: usize, _tree: &SearchTree) -> VisitShares {
        let shares = vec![single(0.0); self.0];
        VisitShares { mean: single(0.0), powers: shares.clone(), shares, power_sum: single(1.0) }
    }

    fn improved_policy(&mut self, _i: usize, _tree: &SearchTree) -> ImprovedPolicy {
        let policy = vec![single(0.0); self.0];
        ImprovedPolicy { mixed_value: single(0.25), policy: policy.clone(), scores: policy }
    }
}

#[test]
fn one_simulation_with_even_scores_takes_the_first_legal_action() {
    let masks = vec![vec![false, true, true, false], vec![true; 4]];
    for algorithm in [SearchAlgorithm::Puct, SearchAlgorithm::Gumbel] {
        let mut model = Even(4);
        let roots = model.recurrent_inference(&vec![0, 1], &vec![0, 0]);
        let results =
            batched_search(algorithm, 4, 4, 1, 0, Some(&masks), &roots, single(0.0), &mut model)
                .unwrap();
        assert_eq!((results[0].best_action, results[1].best_action), (1, 0));
        // The value is the model's own.
        let value = if algorithm == SearchAlgorithm::Puct { 0.0 } else { 0.25 };
        assert_eq!(float(results[0].value), value);
    }
}

fn params(action_space: usize, num_simulations: usize) -> SearchParams {
    SearchParams {
        num_simulations,
        action_space,
        support_size: 10,
        discount: single(0.997),
        max_num_considered_actions: 16,
        c_visit: single(50.0),
        c_scale: single(0.1),
        two_player: false,
    }
}

#[test]
fn minimal_search_matches_batched_search() {
    for step in 0..20 {
        let obs = step as f32 / 10.0 - 1.0;
        let action_space = 6;
        let legal: Vec<bool> = (0..action_space).map(|a| (a + step) % 3 != 0).collect();
        let masks = vec![legal.clone()];
        let batch = run(SearchAlgorithm::Gumbel, action_space, 16, Some(&masks), &[obs], 1.0);

        let mut model = Toy::new(action_space, SearchAlgorithm::Gumbel, 1.0);
        let roots = model.roots(&[obs], Some(&masks));
        let minimal = gumbel_search(
            &params(action_space, 16),
            16,
            legal,
            roots.values[0],
            roots.priors[0].clone(),
            roots.logits[0].clone(),
            &mut model,
        )
        .unwrap();
        assert_eq!(batch[0].best_action, minimal.best_action, "action mismatch");
        assert_eq!(float(batch[0].value), float(minimal.value));
        assert_eq!(batch[0].policy_target, minimal.policy);
    }
}

#[test]
fn halving_without_a_legal_action_finds_none() {
    let mut model = Toy::new(3, SearchAlgorithm::Gumbel, 1.0);
    let third = singles(&[0.3, 0.3, 0.4]);
    let found = gumbel_search(
        &params(3, 4),
        4,
        vec![false; 3],
        single(0.0),
        third.clone(),
        third,
        &mut model,
    );
    assert!(found.is_none());
    assert_eq!(model.requests, 0);
}

#[test]
fn the_only_legal_action_needs_no_search() {
    let mut model = Toy::new(3, SearchAlgorithm::Gumbel, 1.0);
    let third = singles(&[0.3, 0.3, 0.4]);
    let found = gumbel_search(
        &params(3, 4),
        4,
        vec![false, false, true],
        single(0.25),
        third.clone(),
        third,
        &mut model,
    )
    .unwrap();
    assert_eq!(found.best_action, 2);
    assert_eq!(float(found.value), 0.25);
    assert_eq!(floats(&found.policy), vec![0.0, 0.0, 1.0]);
    assert_eq!(model.requests, 0);
}

#[test]
fn a_short_answer_ends_the_search() {
    let mut model = Toy::new(4, SearchAlgorithm::Puct, 1.0);
    model.short_answer = Some(3);
    let roots = model.roots(&[0.3, 0.5], None);
    let found = batched_search(
        SearchAlgorithm::Puct,
        0,
        4,
        10,
        0,
        None,
        &roots,
        single(1.0),
        &mut model,
    );
    assert!(found.is_none());
    assert_eq!(model.requests, 3);
}

#[test]
fn predictions_of_the_wrong_shape_are_refused() {
    let mut model = Toy::new(4, SearchAlgorithm::Puct, 1.0);
    let mut roots = model.roots(&[0.3], None);
    roots.priors[0].pop();
    let found = batched_search(
        SearchAlgorithm::Puct,
        0,
        4,
        10,
        0,
        None,
        &roots,
        single(1.0),
        &mut model,
    );
    assert!(found.is_none());
    assert_eq!(model.requests, 0);
}

#[test]
fn one_position_is_searched_by_visits() {
    for tau in [0.0, 1.0] {
        let mut model = Toy::new(3, SearchAlgorithm::Puct, tau);
        let roots = model.roots(&[0.4], None);
        let (distribution, value, best) = search(3, 20, &roots, single(tau), &mut model).unwrap();
        let sum = total(&distribution);
        assert!((sum - 1.0).abs() < 1e-4, "distribution sums to {sum}");
        assert!(float(value).is_finite());
        assert!(best < 3);
        assert_eq!(model.requests, 20);
        if tau == 0.0 {
            assert_eq!(float(distribution[best]), 1.0);
        }
    }
}
