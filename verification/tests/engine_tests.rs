use tasm_core::engine::EngineError;
use tasm_core::memory::MemoryRegistry;
use tasm_core::registry::IntentRegistry;
use tasm_core::registry::RegistryError;
use tasm_core::AbsenceEngine;
use tasm_core::Intent;

#[test]
fn no_op_window() {
    let mut registry = MemoryRegistry::new();
    registry.set_balance("alice", 2000);
    let mut kernel = AbsenceEngine::new(registry, 0);
    kernel.register_intent(Intent::new("alice", "Alice pays Bob 100", 10, 1000)).unwrap();
    let absences = kernel.advance_time(5).unwrap();
    assert!(absences.is_empty());
    assert_eq!(kernel.get_balance("alice"), 2000);
    assert_eq!(kernel.current_slot(), 5);
}

#[test]
fn single_crystallization() {
    let mut registry = MemoryRegistry::new();
    registry.set_balance("alice", 2000);
    let mut kernel = AbsenceEngine::new(registry, 0);
    let intent = Intent::new("alice", "Alice pays Bob 100", 10, 1000);
    kernel.register_intent(intent.clone()).unwrap();
    assert!(kernel.advance_time(5).unwrap().is_empty());
    let absences = kernel.advance_time(12).unwrap();
    assert_eq!(absences.len(), 1);
    assert_eq!(absences[0].intent_id, intent.id);
    assert_eq!(absences[0].declared_at, 12);
    assert_eq!(kernel.get_balance("alice"), 1000);
    assert!(kernel.get_active().is_empty());
}

#[test]
fn black_swan_catch_up() {
    let mut registry = MemoryRegistry::new();
    registry.set_balance("user1", 2000);
    registry.set_balance("user2", 100000);
    let mut kernel = AbsenceEngine::new(registry, 100);
    let intent_1 = Intent::new("user1", "Repay Loan", 150, 1000);
    let intent_2 = Intent::new("user2", "Inheritance Lock", 5000, 50000);
    kernel.register_intent(intent_1.clone()).unwrap();
    kernel.register_intent(intent_2.clone()).unwrap();
    let absences = kernel.advance_time(10100).unwrap();
    assert_eq!(absences.len(), 2);
    assert!(absences.iter().any(|a| a.intent_id == intent_1.id));
    assert!(absences.iter().any(|a| a.intent_id == intent_2.id));
    assert_eq!(kernel.get_active().len(), 0);
    assert_eq!(kernel.get_balance("user1"), 1000);
    assert_eq!(kernel.get_balance("user2"), 50000);
}

#[test]
fn duplicate_registration_fails() {
    let mut registry = MemoryRegistry::new();
    registry.set_balance("alice", 2000);
    let mut kernel = AbsenceEngine::new(registry, 0);
    kernel.register_intent(Intent::new("alice", "Repay Loan", 150, 1000)).unwrap();
    let second = kernel.register_intent(Intent::new("alice", "Repay Loan", 150, 1000));
    assert_eq!(second, Err(RegistryError::DuplicateIntent));
    assert_eq!(kernel.get_active().len(), 1);
}

#[test]
fn duplicate_after_crystallization_fails() {
    let mut registry = MemoryRegistry::new();
    registry.set_balance("alice", 2000);
    let mut kernel = AbsenceEngine::new(registry, 0);
    kernel.register_intent(Intent::new("alice", "Repay Loan", 5, 1000)).unwrap();
    assert_eq!(kernel.advance_time(10).unwrap().len(), 1);
    let again = kernel.register_intent(Intent::new("alice", "Repay Loan", 5, 1000));
    assert_eq!(again, Err(RegistryError::DuplicateIntent));
    assert_eq!(kernel.get_active().len(), 0);
}

#[test]
fn non_monotonic_time_rejected() {
    let mut registry = MemoryRegistry::new();
    registry.set_balance("alice", 2000);
    let mut kernel = AbsenceEngine::new(registry, 0);
    kernel.register_intent(Intent::new("alice", "Alice pays Bob 100", 7, 1000)).unwrap();
    kernel.advance_time(6).unwrap();
    assert!(matches!(kernel.advance_time(5), Err(EngineError::NonMonotonicTime)));
    assert_eq!(kernel.current_slot(), 6);
    assert_eq!(kernel.get_balance("alice"), 2000);
    assert_eq!(kernel.get_active().len(), 1);
}

#[test]
fn idempotent_at_fixed_point() {
    let mut registry = MemoryRegistry::new();
    registry.set_balance("alice", 2000);
    let mut kernel = AbsenceEngine::new(registry, 0);
    kernel.register_intent(Intent::new("alice", "Alice pays Bob 100", 10, 1000)).unwrap();
    kernel.advance_time(8).unwrap();
    assert!(kernel.advance_time(8).unwrap().is_empty());
    assert!(kernel.advance_time(8).unwrap().is_empty());
    assert_eq!(kernel.current_slot(), 8);
    assert_eq!(kernel.get_balance("alice"), 2000);
    assert_eq!(kernel.get_active().len(), 1);
}

#[test]
fn crystallization_is_exactly_once() {
    let mut registry = MemoryRegistry::new();
    registry.set_balance("alice", 2000);
    let mut kernel = AbsenceEngine::new(registry, 0);
    let intent = Intent::new("alice", "Alice pays Bob 100", 5, 1000);
    kernel.register_intent(intent.clone()).unwrap();
    let first = kernel.advance_time(10).unwrap();
    assert_eq!(first.len(), 1);
    assert_eq!(first[0].intent_id, intent.id);
    assert!(kernel.advance_time(20).unwrap().is_empty());
    assert!(kernel.advance_time(10000).unwrap().is_empty());
    assert_eq!(kernel.get_balance("alice"), 1000);
}

#[test]
fn slashing_saturates_at_zero() {
    let mut registry = MemoryRegistry::new();
    registry.set_balance("alice", 500);
    let mut kernel = AbsenceEngine::new(registry, 0);
    kernel.register_intent(Intent::new("alice", "Alice pays Bob 100", 3, 1000)).unwrap();
    assert_eq!(kernel.advance_time(4).unwrap().len(), 1);
    assert_eq!(kernel.get_balance("alice"), 0);
}

#[test]
fn unseeded_account_has_zero_balance() {
    let registry = MemoryRegistry::new();
    let kernel = AbsenceEngine::new(registry, 0);
    assert_eq!(kernel.get_balance("nobody"), 0);
}

#[test]
fn other_accounts_keep_their_balances() {
    let mut registry = MemoryRegistry::new();
    registry.set_balance("alice", 2000);
    registry.set_balance("charlie", 800);
    let mut kernel = AbsenceEngine::new(registry, 0);
    kernel.register_intent(Intent::new("alice", "Alice pays Bob 100", 10, 1000)).unwrap();
    kernel.register_intent(Intent::new("charlie", "Charlie delivers Data", 20, 500)).unwrap();
    let absences = kernel.advance_time(12).unwrap();
    assert_eq!(absences.len(), 1);
    assert_eq!(kernel.get_balance("alice"), 1000);
    assert_eq!(kernel.get_balance("charlie"), 800);
    let absences = kernel.advance_time(25).unwrap();
    assert_eq!(absences.len(), 1);
    assert_eq!(kernel.get_balance("charlie"), 300);
}

#[test]
fn gap_independence_of_call_sequences() {
    let run = |targets: &[u64]| -> (Vec<String>, u64, u64, usize) {
        let mut registry = MemoryRegistry::new();
        registry.set_balance("user1", 2000);
        registry.set_balance("user2", 100000);
        let mut kernel = AbsenceEngine::new(registry, 100);
        kernel.register_intent(Intent::new("user1", "Repay Loan", 150, 1000)).unwrap();
        kernel.register_intent(Intent::new("user2", "Inheritance Lock", 5000, 50000)).unwrap();
        let mut ids: Vec<String> = Vec::new();
        for &t in targets {
            for a in kernel.advance_time(t).unwrap() {
                ids.push(a.intent_id.0);
            }
        }
        ids.sort();
        (ids, kernel.get_balance("user1"), kernel.get_balance("user2"), kernel.get_active().len())
    };
    let single = run(&[10100]);
    let stepped = run(&[120, 151, 200, 4999, 5000, 5001, 10100]);
    assert_eq!(single, stepped);
}

#[test]
fn declared_at_is_the_sweep_target() {
    let mut registry = MemoryRegistry::new();
    registry.set_balance("alice", 2000);
    let mut kernel = AbsenceEngine::new(registry, 0);
    kernel.register_intent(Intent::new("alice", "Alice pays Bob 100", 3, 1000)).unwrap();
    let absences = kernel.advance_time(7).unwrap();
    assert_eq!(absences[0].declared_at, 7);
}

#[test]
fn registry_can_be_driven_directly() {
    let mut registry = MemoryRegistry::new();
    registry.set_balance("alice", 2000);
    assert_eq!(registry.get_balance("alice"), 2000);
    registry.set_balance("alice", 300);
    assert_eq!(registry.get_balance("alice"), 300);
    let intent = Intent::new("alice", "Alice pays Bob 100", 10, 1000);
    registry.add_intent(intent.clone()).unwrap();
    assert_eq!(registry.get_active().len(), 1);
    assert_eq!(registry.get_active()[0].id, intent.id);
    registry.remove_active(&intent.id);
    assert_eq!(registry.get_active().len(), 0);
    registry.slash("alice", 100);
    assert_eq!(registry.get_balance("alice"), 200);
    registry.slash("alice", 1000);
    assert_eq!(registry.get_balance("alice"), 0);
}
