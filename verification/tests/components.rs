use radix_engine::component::{
    Component, Fields, HardProofRule, HardProofRuleResource, HardRuleList, MethodAuthorization,
    ProofRule, ProofRuleResource, ResourceList, RuleList, Value,
};
use radix_engine::decimal::{Decimal, LiquidFungibleResource, ResourceError};
use radix_engine::id_allocator::{self, IdAllocator};
use radix_engine::interpretations::DefaultInterpretations;
use radix_engine::keys::{
    EcdsaSignature, Ed25519PublicKey, Ed25519Signature, Signature, SignatureWithPublicKey,
};
use radix_engine::proof_types::{novel_type_id, type_id_has_digest, GlobalTypeId};
use radix_engine::types::PackageAddress;
use radix_engine::types::EntityType;
use radix_engine::vault::{check_fungible_amount, FungibleVaultBlueprint, VaultError};

fn dec(units: u64) -> Decimal {
    Decimal::from_units(units)
}

/// A method with no configured rule is public; a configured rule
/// hardens against the component state.
#[test]
fn method_authorization_resolves_against_state() {
    // State: a struct whose field 1 holds a resource leaf.
    let state = Value::Struct(Fields::Unnamed(vec![Value::Unit, Value::Resource(77)]));
    let rule = ProofRule::This(ProofRuleResource::FromComponent(vec![1usize]));
    let component = Component::new(PackageAddress::new(3), b"Faucet".to_vec(), vec![(5u64, rule)], state);

    assert_eq!(component.initialize_method(9), MethodAuthorization::Public);
    assert_eq!(
        component.initialize_method(5),
        MethodAuthorization::Protected(HardProofRule::This(HardProofRuleResource::Resource(77)))
    );
    assert_eq!(component.package_id(), PackageAddress::new(3));
    assert_eq!(component.blueprint_name(), &b"Faucet".to_vec());
}

/// A rule whose state path does not land on a resource leaf collapses
/// to an unsatisfiable empty alternative.
#[test]
fn unresolvable_rule_collapses_to_empty_alternative() {
    let state = Value::Struct(Fields::Unit);
    let rule = ProofRule::This(ProofRuleResource::FromComponent(vec![0usize]));
    let component = Component::new(PackageAddress::new(1), b"X".to_vec(), vec![(1u64, rule)], state);
    assert_eq!(
        component.initialize_method(1),
        MethodAuthorization::Protected(HardProofRule::OneOf(Box::new(HardRuleList::Nil)))
    );
}

/// A compound rule resolves member-wise, skipping unresolvable counted
/// members.
#[test]
fn compound_rules_resolve_memberwise() {
    let state = Value::Collection(vec![Value::Resource(1), Value::Resource(2)]);
    let rule = ProofRule::CountOf(
        1,
        ResourceList::Cons(
            ProofRuleResource::FromComponent(vec![0usize]),
            Box::new(ResourceList::Cons(
                ProofRuleResource::FromComponent(vec![9usize]),
                Box::new(ResourceList::Nil),
            )),
        ),
    );
    let component = Component::new(PackageAddress::new(1), b"X".to_vec(), vec![(1u64, rule)], state);
    match component.initialize_method(1) {
        MethodAuthorization::Protected(HardProofRule::CountOf(count, list)) => {
            assert_eq!(count, 1);
            // Only the first member resolves; the out-of-range path is
            // skipped.
            match list {
                radix_engine::component::HardResourceList::Cons(first, rest) => {
                    assert_eq!(first, HardProofRuleResource::Resource(1));
                    assert!(matches!(*rest, radix_engine::component::HardResourceList::Nil));
                }
                _ => panic!("expected one member"),
            }
        }
        other => panic!("unexpected authorization {:?}", other),
    }

    let nested = ProofRule::AllOf(Box::new(RuleList::Cons(
        ProofRule::SomeOfResource(4, 9),
        Box::new(RuleList::Nil),
    )));
    let state2 = Value::Unit;
    let component2 =
        Component::new(PackageAddress::new(1), b"Y".to_vec(), vec![(2u64, nested)], state2);
    match component2.initialize_method(2) {
        MethodAuthorization::Protected(HardProofRule::AllOf(list)) => match *list {
            HardRuleList::Cons(first, rest) => {
                assert_eq!(first, HardProofRule::SomeOfResource(4, 9));
                assert!(matches!(*rest, HardRuleList::Nil));
            }
            _ => panic!("expected one rule"),
        },
        other => panic!("unexpected authorization {:?}", other),
    }
}

/// Vault arithmetic: withdrawals, deposits, locking and unlocking.
#[test]
fn vault_take_put_lock_unlock() {
    let mut vault = FungibleVaultBlueprint::new(18);
    vault.put(LiquidFungibleResource::new(dec(10))).unwrap();
    assert_eq!(vault.get_amount(), dec(10));

    let taken = vault.take(dec(4)).unwrap();
    assert_eq!(taken.amount(), dec(4));
    assert_eq!(vault.get_amount(), dec(6));

    // Locking 5 takes the uncovered part from the liquid balance.
    vault.lock_amount(dec(5)).unwrap();
    assert_eq!(vault.vault.liquid_amount(), dec(1));
    assert_eq!(vault.vault.locked_amount(), dec(5));
    assert_eq!(vault.get_amount(), dec(6));

    // A second smaller lock is fully covered by the first.
    vault.lock_amount(dec(3)).unwrap();
    assert_eq!(vault.vault.liquid_amount(), dec(1));
    assert_eq!(vault.vault.locked_amount(), dec(5));

    // Unlocking the larger amount returns the difference to liquid.
    vault.unlock_amount(dec(5)).unwrap();
    assert_eq!(vault.vault.locked_amount(), dec(3));
    assert_eq!(vault.vault.liquid_amount(), dec(3));
    vault.unlock_amount(dec(3)).unwrap();
    assert_eq!(vault.vault.locked_amount(), dec(0));
    assert_eq!(vault.vault.liquid_amount(), dec(6));
}

/// A frozen vault refuses withdrawals until unfrozen; a sub-granular
/// amount is invalid; an overdraw reports the shortfall kind.
#[test]
fn vault_error_variants() {
    let mut vault = FungibleVaultBlueprint::new(0);
    vault.put(LiquidFungibleResource::new(dec(5))).unwrap();

    vault.freeze();
    assert_eq!(vault.take(dec(1)), Err(VaultError::VaultFrozen));
    vault.unfreeze();

    // Divisibility zero: only whole tokens are representable.
    let half = Decimal::from_attos(500_000_000_000_000_000);
    assert_eq!(vault.take(half), Err(VaultError::InvalidAmount));
    assert!(check_fungible_amount(&dec(2), 0));
    assert!(!check_fungible_amount(&half, 0));
    assert!(check_fungible_amount(&half, 18));

    assert_eq!(
        vault.take(dec(9)),
        Err(VaultError::ResourceError(ResourceError::InsufficientBalance))
    );
    assert_eq!(vault.take(dec(5)).unwrap().amount(), dec(5));
}

/// The digest-derived type identifier: twenty bytes, deterministic, and
/// sensitive to its input.
#[test]
fn novel_type_ids_are_derived_from_the_name() {
    let a = novel_type_id(b"FungibleProof");
    let b = novel_type_id(b"FungibleProof");
    let c = novel_type_id(b"NonFungibleProof");
    assert_eq!(a, b);
    assert_ne!(a, c);
    match &a {
        GlobalTypeId::Novel(digest) => {
            assert_eq!(digest.len(), 20);
            let d = digest.clone();
            assert!(type_id_has_digest(&a, &d));
            assert!(!type_id_has_digest(&c, &d));
        }
        _ => panic!("expected a novel identifier"),
    }
    assert!(!type_id_has_digest(&GlobalTypeId::WellKnown(7), b"xx"));
}

/// Interpretation codes keep their documented grouping.
#[test]
fn interpretation_codes() {
    assert_eq!(DefaultInterpretations::NOT_FIXED, 0x00);
    assert_eq!(DefaultInterpretations::U64, 0x13);
    assert_eq!(DefaultInterpretations::SORTED_MAP, 0x6c);
}

/// The signature accessor strips the public key.
#[test]
fn signature_accessor() {
    let sig = SignatureWithPublicKey::Ecdsa { signature: EcdsaSignature(4) };
    assert_eq!(sig.signature(), Signature::Ecdsa(EcdsaSignature(4)));
    let sig2 = SignatureWithPublicKey::Ed25519 {
        public_key: Ed25519PublicKey(1),
        signature: Ed25519Signature(9),
    };
    assert_eq!(sig2.signature(), Signature::Ed25519(Ed25519Signature(9)));
}

/// Id allocation is deterministic in the seed and issues distinct ids.
#[test]
fn id_allocation_is_deterministic_and_unique() {
    let mut a = IdAllocator::new(id_allocator::Hash(42));
    let mut b = IdAllocator::new(id_allocator::Hash(42));
    let a1 = a.allocate_node_id(EntityType::InternalBucket).unwrap();
    let a2 = a.allocate_node_id(EntityType::InternalBucket).unwrap();
    let b1 = b.allocate_node_id(EntityType::InternalBucket).unwrap();
    assert_eq!(a1, b1);
    assert_ne!(a1, a2);
}

/// Checked amount arithmetic reports overflow and shortfall as `None`.
#[test]
fn decimal_checked_arithmetic() {
    let a = dec(3);
    let b = dec(2);
    assert_eq!(a.checked_add(&b), Some(dec(5)));
    assert_eq!(a.checked_sub(&b), Some(dec(1)));
    assert_eq!(b.checked_sub(&a), None);
    let huge = Decimal::from_attos(u128::MAX);
    assert_eq!(huge.checked_add(&dec(1)), None);
}
