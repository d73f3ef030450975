
#[test]
fn the_adapter_choice_is_an_index_a_name_or_a_backend() {
    assert!(babel::cvg::sieve::matches("1", 1, "AMD Radeon RX 7800 XT", "Vulkan"));
    assert!(!babel::cvg::sieve::matches("1", 0, "AMD Radeon RX 7800 XT", "Vulkan"));
    // A bare number is an index, never a name.
    assert!(!babel::cvg::sieve::matches("7800", 0, "AMD Radeon RX 7800 XT", "Vulkan"));
    assert!(babel::cvg::sieve::matches("rx 7800", 0, "AMD Radeon RX 7800 XT", "Vulkan"));
    assert!(babel::cvg::sieve::matches("radeon rx", 0, "AMD Radeon RX 7800 XT", "Vulkan"));
    assert!(babel::cvg::sieve::matches("VULKAN", 0, "AMD Radeon RX 7800 XT", "Vulkan"));
    assert!(!babel::cvg::sieve::matches("nvidia", 0, "AMD Radeon RX 7800 XT", "Vulkan"));
    assert!(!babel::cvg::sieve::matches("vulk", 0, "AMD Radeon RX 7800 XT", "Vulkan"), "a backend is matched whole");
}

#[test]
fn a_choice_is_trimmed_and_an_index_may_carry_a_plus() {
    assert!(babel::cvg::sieve::matches("  2 ", 2, "Intel Arc", "Metal"));
    assert!(babel::cvg::sieve::matches("+2", 2, "Intel Arc", "Metal"));
    assert!(babel::cvg::sieve::matches(" metal\n", 0, "Intel Arc", "Metal"));
    // A number too large for an index is a name, and no name holds it.
    assert!(!babel::cvg::sieve::matches("99999999999999999999999", 0, "Intel Arc", "Metal"));
    // An empty choice is contained in every name.
    assert!(babel::cvg::sieve::matches("", 3, "Intel Arc", "Metal"));
}
