use rexplore::impl_grouper::is_std_library_trait;

#[test]
fn test_is_std_library_trait() {
    assert!(is_std_library_trait("std::fmt::Debug"));
    assert!(is_std_library_trait("core::marker::Send"));
    assert!(is_std_library_trait("alloc::string::ToString"));
    assert!(!is_std_library_trait("MyTrait"));
    assert!(!is_std_library_trait("my_crate::MyTrait"));
}
