use gaussrdl::{init, shutdown};

#[test]
fn test_init_shutdown() {
    assert!(init().is_ok());
    assert!(shutdown().is_ok());
}

#[test]
fn test_random_walk_sampling() {
}

#[test]
fn test_layer_wise_sampling() {
}

#[test]
fn test_cached_sampling() {
}

#[test]
fn test_adaptive_sampling() {
}
