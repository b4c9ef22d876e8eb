//! Column masking.

use cendb::security::masking::{ColumnMask, MaskingPolicy, MaskingRule};

#[test]
fn full_mask() {
    let mask = ColumnMask::Full;
    assert_eq!(mask.mask_string("alice"), "*****");
    assert_eq!(mask.mask_string("bob"), "***");
}

#[test]
fn partial_mask() {
    let mask = ColumnMask::Partial { prefix: 2, suffix: 2 };
    assert_eq!(mask.mask_string("alice@example.com"), "al*************om");
    assert_eq!(mask.mask_string("ab"), "**");
}

#[test]
fn hash_mask() {
    let mask = ColumnMask::Hash;
    let h1 = mask.mask_string("alice");
    let h2 = mask.mask_string("alice");
    let h3 = mask.mask_string("bob");
    assert_eq!(h1, h2);
    assert_ne!(h1, h3);
}

#[test]
fn null_mask() {
    let mask = ColumnMask::Null;
    assert_eq!(mask.mask_string("sensitive"), "");
}

#[test]
fn policy_applies_rules_by_role() {
    let mut policy = MaskingPolicy::new();
    policy.add_rule(
        MaskingRule::new("ssn", ColumnMask::Full).for_roles(&["analyst"]),
    );
    policy.add_rule(
        MaskingRule::new("ssn", ColumnMask::Partial { prefix: 3, suffix: 4 }),
    );

    let analyst_view = policy.mask_string("ssn", "123-45-6789", "analyst");
    assert_eq!(analyst_view, "***********");

    let admin_view = policy.mask_string("ssn", "123-45-6789", "admin");
    assert_eq!(admin_view, "123****6789");

    let name_view = policy.mask_string("name", "Alice", "analyst");
    assert_eq!(name_view, "Alice");
}

#[test]
fn first_rule_for_the_role_decides() {
    let short = ColumnMask::Partial { prefix: 1, suffix: 1 };
    assert_eq!(short.mask_string("\u{e9}ab"), "\u{e9}*b");
    assert_eq!(ColumnMask::Full.mask_string("\u{e9}a"), "**");
    let mut policy = MaskingPolicy::new();
    policy.add_rule(MaskingRule::new("c", ColumnMask::Null).for_roles(&["a", "b"]));
    policy.add_rule(MaskingRule::new("c", ColumnMask::Full));
    assert_eq!(policy.mask_column("c", b"xyz", "b"), Vec::<u8>::new());
    assert_eq!(policy.mask_column("c", b"xyz", "other"), b"***".to_vec());
    assert_eq!(policy.mask_column("d", b"xyz", "b"), b"xyz".to_vec());
}

#[test]
fn masked_hash_is_the_hash_of_the_value() {
    let masked = ColumnMask::Hash.mask(b"alice");
    let again = ColumnMask::Hash.mask(b"alice");
    assert_eq!(masked, again);
    assert_ne!(masked, b"alice".to_vec());
}
