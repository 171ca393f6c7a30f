use uemacs::lock::LockManager;

#[test]
fn test_lock_manager_new_is_empty() {
    let lm = LockManager::new();
    assert!(lm.locked_files.is_empty());
}
