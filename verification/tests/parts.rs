use dat_verify::registry::{registry_is_wf, DatRecord};
use dat_verify::scheduler::{
    Challenge, Origin, PendingChallenge, Scheduler, SchedulerParts, SeederSlot,
};
use dat_verify::payload::{ParentHashInRoot, RootHashPayload};
use dat_verify::seeders::{list_is_increasing, seeders_are_wf, Seeder};

fn dat(id: u64, key: u8) -> DatRecord {
    DatRecord {
        id,
        key: [key; 32],
        owner: 1,
        root_hash: [0; 32],
        root_signature: [0; 64],
        tree_size: 10,
    }
}

fn good_parts() -> SchedulerParts {
    SchedulerParts {
        dats: vec![dat(0, 1), dat(2, 2), dat(5, 3)],
        seeders: vec![
            Seeder { account: 7, dats: vec![0, 5] },
            Seeder { account: 8, dats: vec![2] },
        ],
        pending: Some(PendingChallenge {
            challenge: Challenge { id: 3, dat_key: [9; 32], leaf_index: 4, deadline: 50 },
            slot: SeederSlot { index: 2, seeder: 7, pending: 1 },
        }),
        removed: vec![[9; 32]],
        next_challenge: 4,
        next_slot: 3,
        nonce: 11,
    }
}

#[test]
fn parts_in_shape_make_a_scheduler() {
    let scheduler = Scheduler::from_parts(good_parts()).unwrap();
    assert_eq!(scheduler.dats(), &good_parts().dats);
    assert_eq!(scheduler.seeders(), &good_parts().seeders);
    assert_eq!(scheduler.pending(), good_parts().pending);
    assert_eq!(scheduler.removed(), &good_parts().removed);
    assert_eq!(scheduler.nonce(), 11);
    assert_eq!(scheduler.into_parts(), good_parts());
}

#[test]
fn a_scheduler_comes_back_from_its_parts() {
    let mut scheduler = Scheduler::new();
    let root = RootHashPayload::new(vec![ParentHashInRoot {
        hash: [0; 32],
        hash_number: 0,
        total_length: 9,
    }]);
    assert_eq!(scheduler.force_register_data(&Origin::Root, 1, [1; 32], &root, [0; 64]), Ok(0));
    assert_eq!(scheduler.pin_drawn(5, 0), Some([1; 32]));
    let issued = scheduler.issue_challenge(10, 4);
    assert!(issued.is_some());
    let parts = scheduler.into_parts();
    let mut again = Scheduler::from_parts(parts.clone()).unwrap();
    assert_eq!(again.pending(), issued);
    assert_eq!(again.on_round_end(15).map(|failed| failed.seeder), Some(5));
    assert_eq!(again.into_parts().seeders, Vec::new());
    assert_eq!(parts.seeders, vec![Seeder { account: 5, dats: vec![0] }]);
}

#[test]
fn the_empty_scheduler_has_empty_parts() {
    let parts = Scheduler::new().into_parts();
    assert_eq!(
        parts,
        SchedulerParts {
            dats: Vec::new(),
            seeders: Vec::new(),
            pending: None,
            removed: Vec::new(),
            next_challenge: 0,
            next_slot: 0,
            nonce: 0,
        }
    );
    assert!(Scheduler::from_parts(parts).is_some());
}

#[test]
fn ids_out_of_order_are_refused() {
    let mut parts = good_parts();
    parts.dats = vec![dat(2, 2), dat(0, 1), dat(5, 3)];
    assert!(Scheduler::from_parts(parts).is_none());
    let mut twice = good_parts();
    twice.dats = vec![dat(0, 1), dat(2, 2), dat(2, 3), dat(5, 4)];
    assert!(Scheduler::from_parts(twice).is_none());
}

#[test]
fn a_key_twice_is_refused() {
    let mut parts = good_parts();
    parts.dats = vec![dat(0, 1), dat(2, 2), dat(5, 1)];
    assert!(Scheduler::from_parts(parts).is_none());
}

#[test]
fn an_empty_tree_is_refused() {
    let mut parts = good_parts();
    parts.dats[1].tree_size = 0;
    assert!(Scheduler::from_parts(parts).is_none());
}

#[test]
fn a_pin_of_an_unknown_archive_is_refused() {
    let mut parts = good_parts();
    parts.seeders[1].dats = vec![2, 3];
    assert!(Scheduler::from_parts(parts).is_none());
}

#[test]
fn a_seeder_without_pins_is_refused() {
    let mut parts = good_parts();
    parts.seeders[1].dats = Vec::new();
    assert!(Scheduler::from_parts(parts).is_none());
}

#[test]
fn pins_out_of_order_are_refused() {
    let mut parts = good_parts();
    parts.seeders[0].dats = vec![5, 0];
    assert!(Scheduler::from_parts(parts).is_none());
    let mut twice = good_parts();
    twice.seeders[0].dats = vec![0, 0, 5];
    assert!(Scheduler::from_parts(twice).is_none());
}

#[test]
fn an_account_twice_is_refused() {
    let mut parts = good_parts();
    parts.seeders[1].account = 7;
    assert!(Scheduler::from_parts(parts).is_none());
}

#[test]
fn a_challenge_that_was_never_handed_out_is_refused() {
    let mut parts = good_parts();
    parts.next_challenge = 3;
    assert!(Scheduler::from_parts(parts).is_none());
    let mut slot = good_parts();
    slot.next_slot = 2;
    assert!(Scheduler::from_parts(slot).is_none());
    let mut count = good_parts();
    count.pending = Some(PendingChallenge {
        challenge: Challenge { id: 3, dat_key: [9; 32], leaf_index: 4, deadline: 50 },
        slot: SeederSlot { index: 2, seeder: 7, pending: 2 },
    });
    assert!(Scheduler::from_parts(count).is_none());
}

#[test]
fn shape_checks_of_the_tables() {
    assert!(registry_is_wf(&Vec::new()));
    assert!(registry_is_wf(&vec![dat(3, 1)]));
    assert!(registry_is_wf(&good_parts().dats));
    assert!(!registry_is_wf(&vec![dat(3, 1), dat(3, 2)]));
    assert!(seeders_are_wf(&good_parts().seeders, &good_parts().dats));
    assert!(seeders_are_wf(&Vec::new(), &Vec::new()));
    assert!(!seeders_are_wf(&good_parts().seeders, &Vec::new()));
    assert!(list_is_increasing(&Vec::new()));
    assert!(list_is_increasing(&vec![4]));
    assert!(list_is_increasing(&vec![1, 2, 9]));
    assert!(!list_is_increasing(&vec![1, 2, 2]));
    assert!(!list_is_increasing(&vec![3, 2]));
}
