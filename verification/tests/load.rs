#[test]
fn test_load() {}
