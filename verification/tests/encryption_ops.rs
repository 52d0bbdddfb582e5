use hf_mount::encryption::content::{ciphertext_size, plan_read};
use hf_mount::encryption::{Encryptor, MasterKey};

#[test]
fn encryption_ops_requires_nfs_and_encrypt_features() {
    println!("Skipping encryption_ops: requires --features nfs,encrypt");
}

#[test]
fn names_and_sizes_of_an_encrypted_mount() {
    let encryptor = Encryptor::from_master_key(&MasterKey([9; 32]), 2);
    let stored = encryptor.path_cipher.encrypt_path("notes/today.md").unwrap();
    assert!(!stored.contains("notes") && !stored.contains("today"));
    assert_eq!(
        encryptor.path_cipher.decrypt_path(&stored).as_deref(),
        Some("notes/today.md")
    );
    let plan = plan_read(ciphertext_size(10), 0, 10).unwrap();
    assert_eq!(plan.slots_object.end, ciphertext_size(10));
}
