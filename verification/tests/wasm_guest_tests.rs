use playground::wasm_guest::{greeting, greeting_line, a_lot_of_heap_memory, a_lot_of_stack_memory, HEAP_ITEMS};

#[test]
fn stack_probe_returns_one() {
    assert_eq!(a_lot_of_stack_memory(), 1);
}

#[test]
fn heap_probe_returns_the_sum() {
    let n = HEAP_ITEMS as u128;
    let expected = (n * (n - 1) / 2) % ((usize::MAX as u128) + 1);
    assert_eq!(a_lot_of_heap_memory() as u128, expected);
    if usize::BITS == 64 {
        assert_eq!(a_lot_of_heap_memory(), 21474833203200);
    }
}

#[test]
fn greeting_names_the_host() {
    assert_eq!(greeting("Alice"), "Hi Alice, I'm greeting you from the guest!");
    assert_eq!(greeting(""), "Hi , I'm greeting you from the guest!");
}

#[test]
fn greeting_line_names_the_host() {
    assert_eq!(
        greeting_line("Bob"),
        "Hi Bob, I'm greeting you from the guest in a println!"
    );
}
