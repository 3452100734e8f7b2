//! Tests of the core state object: pruning, upgrades, and session changes.

use paras::meta::ParaPastCodeMeta;
use paras::state::{ParaGenesisArgs, Paras};

fn chain_args(code: Vec<u8>) -> ParaGenesisArgs {
    ParaGenesisArgs { genesis_head: Vec::new(), validation_code: code, parachain: true }
}

fn thread_args(code: Vec<u8>) -> ParaGenesisArgs {
    ParaGenesisArgs { genesis_head: Vec::new(), validation_code: code, parachain: false }
}

fn run_to_block(paras: &mut Paras, now: &mut u64, to: u64, new_session: Option<Vec<u64>>) {
    while *now < to {
        paras.initializer_finalize();
        *now += 1;
        if new_session.as_ref().map_or(false, |v| v.contains(now)) {
            paras.initializer_on_new_session(*now);
        }
        paras.initializer_initialize(*now);
    }
}

#[test]
fn para_past_code_pruning_in_initialize() {
    let acceptance_period: u64 = 10;
    let mut paras = Paras::genesis(
        acceptance_period,
        vec![(0u64, chain_args(Vec::new())), (1u64, thread_args(Vec::new()))],
    );
    let mut now: u64 = 0;

    let id: u64 = 0;
    let at_block: u64 = 10;
    let included_block: u64 = 12;

    paras.past_code.insert((id, at_block), vec![1, 2, 3]);
    paras.past_code_pruning = vec![(id, included_block)];
    {
        let mut code_meta = paras.past_code_meta(id);
        code_meta.note_replacement(at_block, included_block);
        paras.past_code_meta.insert(id, code_meta);
    }

    let pruned_at: u64 = included_block + acceptance_period + 1;
    assert_eq!(paras.past_code(id, at_block), Some(vec![1, 2, 3]));

    run_to_block(&mut paras, &mut now, pruned_at - 1, None);
    assert_eq!(paras.past_code(id, at_block), Some(vec![1, 2, 3]));
    assert_eq!(paras.past_code_meta(id).most_recent_change(), Some(at_block));

    run_to_block(&mut paras, &mut now, pruned_at, None);
    assert!(paras.past_code(id, at_block).is_none());
    assert!(paras.past_code_meta(id).most_recent_change().is_none());
}

#[test]
fn note_past_code_sets_up_pruning_correctly() {
    let acceptance_period: u64 = 10;
    let mut paras = Paras::genesis(
        acceptance_period,
        vec![(0u64, chain_args(Vec::new())), (1u64, thread_args(Vec::new()))],
    );

    let id_a: u64 = 0;
    let id_b: u64 = 1;

    paras.note_past_code(id_a, 10, 12, vec![1, 2, 3]);
    paras.note_past_code(id_b, 20, 23, vec![4, 5, 6]);

    // The retirement queue is keyed by the height at which each replacement
    // was observed on the host chain.
    assert_eq!(paras.past_code_pruning, vec![(id_a, 12), (id_b, 23)]);
    assert_eq!(
        paras.past_code_meta(id_a),
        ParaPastCodeMeta { upgrade_times: vec![(10, 12)], last_pruned: None }
    );
    assert_eq!(
        paras.past_code_meta(id_b),
        ParaPastCodeMeta { upgrade_times: vec![(20, 23)], last_pruned: None }
    );
}

#[test]
fn code_upgrade_applied_after_delay() {
    let acceptance_period: u64 = 10;
    let validation_upgrade_delay: u64 = 5;

    let mut paras = Paras::genesis(acceptance_period, vec![(0u64, chain_args(vec![1, 2, 3]))]);
    let mut now: u64 = 0;

    let para_id: u64 = 0;
    let new_code: Vec<u8> = vec![4, 5, 6];

    run_to_block(&mut paras, &mut now, 2, None);
    assert_eq!(paras.current_code(para_id), Some(vec![1, 2, 3]));

    let applied_after: u64 = {
        // this parablock is in the context of block 1.
        let applied_after: u64 = 1 + validation_upgrade_delay;
        paras.schedule_code_upgrade(para_id, new_code.clone(), applied_after);
        paras.note_new_head(para_id, Vec::new(), 1, now);

        assert!(paras.past_code_meta(para_id).most_recent_change().is_none());
        assert_eq!(paras.future_code_upgrade_at(para_id), Some(applied_after));
        assert_eq!(paras.future_code(para_id), Some(new_code.clone()));
        assert_eq!(paras.current_code(para_id), Some(vec![1, 2, 3]));

        applied_after
    };

    run_to_block(&mut paras, &mut now, applied_after, None);

    // the candidate is in the context of the parent of `applied_after`,
    // thus does not trigger the code upgrade.
    {
        paras.note_new_head(para_id, Vec::new(), applied_after - 1, now);

        assert!(paras.past_code_meta(para_id).most_recent_change().is_none());
        assert_eq!(paras.future_code_upgrade_at(para_id), Some(applied_after));
        assert_eq!(paras.future_code(para_id), Some(new_code.clone()));
        assert_eq!(paras.current_code(para_id), Some(vec![1, 2, 3]));
    }

    run_to_block(&mut paras, &mut now, applied_after + 1, None);

    // the candidate is in the context of `applied_after`, and triggers
    // the upgrade.
    {
        paras.note_new_head(para_id, Vec::new(), applied_after, now);

        assert_eq!(paras.past_code_meta(para_id).most_recent_change(), Some(applied_after));
        assert_eq!(paras.past_code(para_id, applied_after), Some(vec![1, 2, 3]));
        assert!(paras.future_code_upgrade_at(para_id).is_none());
        assert!(paras.future_code(para_id).is_none());
        assert_eq!(paras.current_code(para_id), Some(new_code));
    }
}

#[test]
fn code_upgrade_applied_after_delay_even_when_late() {
    let acceptance_period: u64 = 10;
    let validation_upgrade_delay: u64 = 5;

    let mut paras = Paras::genesis(acceptance_period, vec![(0u64, chain_args(vec![1, 2, 3]))]);
    let mut now: u64 = 0;

    let para_id: u64 = 0;
    let new_code: Vec<u8> = vec![4, 5, 6];

    run_to_block(&mut paras, &mut now, 2, None);
    assert_eq!(paras.current_code(para_id), Some(vec![1, 2, 3]));

    let applied_after: u64 = {
        // this parablock is in the context of block 1.
        let applied_after: u64 = 1 + validation_upgrade_delay;
        paras.schedule_code_upgrade(para_id, new_code.clone(), applied_after);
        paras.note_new_head(para_id, Vec::new(), 1, now);

        assert!(paras.past_code_meta(para_id).most_recent_change().is_none());
        assert_eq!(paras.future_code_upgrade_at(para_id), Some(applied_after));
        assert_eq!(paras.future_code(para_id), Some(new_code.clone()));
        assert_eq!(paras.current_code(para_id), Some(vec![1, 2, 3]));

        applied_after
    };

    run_to_block(&mut paras, &mut now, applied_after + 1 + 4, None);

    // the candidate is in the context of the first descendent of
    // `applied_after`, and triggers the upgrade.
    {
        paras.note_new_head(para_id, Vec::new(), applied_after + 4, now);

        assert_eq!(paras.past_code_meta(para_id).most_recent_change(), Some(applied_after));
        assert_eq!(paras.past_code(para_id, applied_after), Some(vec![1, 2, 3]));
        assert!(paras.future_code_upgrade_at(para_id).is_none());
        assert!(paras.future_code(para_id).is_none());
        assert_eq!(paras.current_code(para_id), Some(new_code));
    }
}

#[test]
fn submit_code_change_when_not_allowed_is_err() {
    let acceptance_period: u64 = 10;

    let mut paras = Paras::genesis(acceptance_period, vec![(0u64, chain_args(vec![1, 2, 3]))]);
    let mut now: u64 = 0;

    let para_id: u64 = 0;
    let new_code: Vec<u8> = vec![4, 5, 6];
    let newer_code: Vec<u8> = vec![4, 5, 6, 7];

    run_to_block(&mut paras, &mut now, 1, None);

    paras.schedule_code_upgrade(para_id, new_code.clone(), 8);
    assert_eq!(paras.future_code_upgrade_at(para_id), Some(8));
    assert_eq!(paras.future_code(para_id), Some(new_code.clone()));

    paras.schedule_code_upgrade(para_id, newer_code.clone(), 10);
    assert_eq!(paras.future_code_upgrade_at(para_id), Some(8));
    assert_eq!(paras.future_code(para_id), Some(new_code));
}

#[test]
fn full_parachain_cleanup_storage() {
    let acceptance_period: u64 = 10;

    let mut paras = Paras::genesis(acceptance_period, vec![(0u64, chain_args(vec![1, 2, 3]))]);
    let mut now: u64 = 0;

    let para_id: u64 = 0;
    let new_code: Vec<u8> = vec![4, 5, 6];

    run_to_block(&mut paras, &mut now, 2, None);
    assert_eq!(paras.current_code(para_id), Some(vec![1, 2, 3]));

    let applied_after: u64 = {
        // this parablock is in the context of block 1.
        let applied_after: u64 = 1 + 5;
        paras.schedule_code_upgrade(para_id, new_code.clone(), applied_after);
        paras.note_new_head(para_id, Vec::new(), 1, now);

        assert!(paras.past_code_meta(para_id).most_recent_change().is_none());
        assert_eq!(paras.future_code_upgrade_at(para_id), Some(applied_after));
        assert_eq!(paras.future_code(para_id), Some(new_code.clone()));
        assert_eq!(paras.current_code(para_id), Some(vec![1, 2, 3]));

        applied_after
    };

    paras.schedule_para_cleanup(para_id);

    // Just scheduling cleanup shouldn't change anything.
    {
        assert_eq!(paras.outgoing_paras, vec![para_id]);
        assert_eq!(paras.parachains(), vec![para_id]);

        assert!(paras.past_code_meta(para_id).most_recent_change().is_none());
        assert_eq!(paras.future_code_upgrade_at(para_id), Some(applied_after));
        assert_eq!(paras.future_code(para_id), Some(new_code.clone()));
        assert_eq!(paras.current_code(para_id), Some(vec![1, 2, 3]));

        assert_eq!(paras.parachain_head(para_id), Some(Vec::new()));
    }

    // run to block, with a session change at that block.
    run_to_block(&mut paras, &mut now, 3, Some(vec![3]));

    // cleaning up the parachain should place the current parachain code
    // into the past code buffer & schedule cleanup.
    assert_eq!(paras.past_code_meta(para_id).most_recent_change(), Some(3));
    assert_eq!(paras.past_code(para_id, 3), Some(vec![1, 2, 3]));
    assert_eq!(paras.past_code_pruning, vec![(para_id, 3)]);

    // any future upgrades haven't been used to validate yet, so those
    // are cleaned up immediately.
    assert!(paras.future_code_upgrade_at(para_id).is_none());
    assert!(paras.future_code(para_id).is_none());
    assert!(paras.current_code(para_id).is_none());
    assert!(paras.parachains().is_empty());

    // run to do the final cleanup
    let cleaned_up_at: u64 = 3 + acceptance_period + 1;
    run_to_block(&mut paras, &mut now, cleaned_up_at, None);

    // now the final cleanup: last past code cleaned up, and this triggers
    // meta cleanup.
    assert_eq!(paras.past_code_meta(para_id), ParaPastCodeMeta::default());
    assert!(paras.past_code(para_id, 3).is_none());
    assert!(paras.past_code_pruning.is_empty());
}

#[test]
fn upgrade_applies_end_to_end_and_is_pruned() {
    let acceptance_period: u64 = 10;
    let mut paras = Paras::genesis(acceptance_period, vec![(0u64, chain_args(vec![1, 2, 3]))]);
    let mut now: u64 = 0;

    run_to_block(&mut paras, &mut now, 1, None);
    paras.schedule_code_upgrade(0, vec![4, 5, 6], 6);
    paras.note_new_head(0, Vec::new(), 1, now);
    assert_eq!(paras.current_code(0), Some(vec![1, 2, 3]));

    run_to_block(&mut paras, &mut now, 5, None);
    paras.note_new_head(0, Vec::new(), 5, now);
    assert_eq!(paras.current_code(0), Some(vec![1, 2, 3]));

    run_to_block(&mut paras, &mut now, 6, None);
    paras.note_new_head(0, Vec::new(), 6, now);
    assert_eq!(paras.current_code(0), Some(vec![4, 5, 6]));
    assert_eq!(paras.past_code(0, 6), Some(vec![1, 2, 3]));
    assert_eq!(paras.past_code_pruning, vec![(0, 6)]);

    // The archived version survives until its challenge window closes...
    run_to_block(&mut paras, &mut now, 6 + acceptance_period, None);
    assert_eq!(paras.past_code(0, 6), Some(vec![1, 2, 3]));

    // ...and is gone the block after.
    run_to_block(&mut paras, &mut now, 6 + acceptance_period + 1, None);
    assert!(paras.past_code(0, 6).is_none());
    assert!(paras.past_code_meta(0).most_recent_change().is_none());
    assert!(paras.past_code_pruning.is_empty());
}

#[test]
fn duplicate_admission_and_retirement_requests_are_deduplicated() {
    let acceptance_period: u64 = 10;
    let mut paras = Paras::genesis(acceptance_period, Vec::new());

    paras.schedule_para_initialize(9, chain_args(vec![1]));
    paras.schedule_para_initialize(9, chain_args(vec![2]));
    assert_eq!(paras.upcoming_paras, vec![9]);

    paras.schedule_para_cleanup(7);
    paras.schedule_para_cleanup(7);
    assert_eq!(paras.outgoing_paras, vec![7]);

    // The first admission request won: the session applies code [1].
    let mut now: u64 = 0;
    run_to_block(&mut paras, &mut now, 1, Some(vec![1]));
    assert_eq!(paras.current_code(9), Some(vec![1]));
    assert_eq!(paras.parachains(), vec![9]);
    assert!(paras.upcoming_paras.is_empty());
    assert!(paras.outgoing_paras.is_empty());
}

#[test]
fn validation_code_at_resolves_current_past_and_future() {
    let acceptance_period: u64 = 10;
    let mut paras = Paras::genesis(acceptance_period, vec![(0u64, chain_args(vec![1, 2, 3]))]);
    let mut now: u64 = 0;

    run_to_block(&mut paras, &mut now, 2, None);
    paras.schedule_code_upgrade(0, vec![4, 5, 6], 6);

    // An assumed intermediate block at or past `at` is a caller error.
    assert_eq!(paras.validation_code_at(0, 4, Some(4), now), None);
    assert_eq!(paras.validation_code_at(0, 4, Some(5), now), None);

    // An intermediate context at or past the target height means the pending
    // code would already be in force.
    assert_eq!(paras.validation_code_at(0, 8, Some(6), now), Some(vec![4, 5, 6]));
    assert_eq!(paras.validation_code_at(0, 8, Some(5), now), Some(vec![1, 2, 3]));

    // Apply the upgrade in the context of height 6.
    run_to_block(&mut paras, &mut now, 7, None);
    paras.note_new_head(0, Vec::new(), 6, now);
    assert_eq!(paras.current_code(0), Some(vec![4, 5, 6]));

    // Queries before the replacement height see the archived version; later
    // ones see the current code.
    assert_eq!(paras.validation_code_at(0, 6, None, now), Some(vec![1, 2, 3]));
    assert_eq!(paras.validation_code_at(0, 7, None, now), Some(vec![4, 5, 6]));

    // A height outside the replay window yields nothing.
    run_to_block(&mut paras, &mut now, 6 + acceptance_period + 2, None);
    assert_eq!(paras.validation_code_at(0, 6, None, now), None);
}

#[test]
fn genesis_sorts_and_deduplicates_active_set() {
    let paras = Paras::genesis(
        10,
        vec![
            (5u64, chain_args(vec![5])),
            (1u64, chain_args(vec![1])),
            (5u64, chain_args(vec![55])),
            (3u64, thread_args(vec![3])),
        ],
    );
    assert_eq!(paras.parachains(), vec![1, 5]);
    // The later entry for a repeated id wins.
    assert_eq!(paras.current_code(5), Some(vec![55]));
    assert_eq!(paras.current_code(3), Some(vec![3]));
    assert_eq!(paras.current_code(1), Some(vec![1]));
}

#[test]
fn session_retires_and_admits_in_order() {
    let acceptance_period: u64 = 10;
    let mut paras = Paras::genesis(acceptance_period, vec![(3u64, chain_args(vec![7]))]);
    let mut now: u64 = 0;

    // Para 3 departs; para 3 also arrives anew (thread-like this time), so
    // departures run first and the arrival wins.
    paras.schedule_para_cleanup(3);
    paras.schedule_para_initialize(3, thread_args(vec![9]));
    run_to_block(&mut paras, &mut now, 2, Some(vec![2]));

    // The departing instance archived its code at the boundary height.
    assert_eq!(paras.past_code(3, 2), Some(vec![7]));
    // The arriving instance is thread-like: registered, but not active.
    assert!(paras.parachains().is_empty());
    assert_eq!(paras.current_code(3), Some(vec![9]));
    assert_eq!(paras.parachain_head(3), Some(Vec::new()));
}
