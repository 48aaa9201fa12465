use oxide_boot::interrupts::{
    configure_exceptions, configure_irqs, install_gate, plan_installation, ExceptionHandlers,
    GateOptions, Idt, IdtAction, IdtEntry, IdtPointer, InterruptHandler, IrqHandlers,
    IDT_ENTRIES, IDT_ENTRY_BYTES,
};

fn dummy_handler() {}

fn dummy_address() -> usize {
    dummy_handler as usize
}

#[test]
fn gate_options_interrupt_defaults() {
    let options = GateOptions::interrupt();
    assert_eq!(options.type_attr, 0b1000_1110);
    assert_eq!(options.ist, 0);
}

#[test]
fn gate_options_trap_defaults() {
    let options = GateOptions::trap();
    assert_eq!(options.type_attr, 0b1000_1111);
    assert_eq!(options.ist, 0);
}

#[test]
fn gate_options_with_privilege_updates_dpl_bits() {
    let options = GateOptions::interrupt().with_privilege(3);
    assert_eq!(options.type_attr & 0b0110_0000, 0b0110_0000);
}

#[test]
fn gate_options_with_present_clears_bit_when_false() {
    let options = GateOptions::interrupt().with_present(false);
    assert_eq!(options.type_attr & 0b1000_0000, 0);
}

#[test]
fn gate_options_with_ist_masks_to_three_bits() {
    let options = GateOptions::interrupt().with_ist(0b1010);
    assert_eq!(options.ist, 0b010);
}

#[test]
fn interrupt_handler_from_fn_tracks_address() {
    let handler = InterruptHandler::from_fn(dummy_handler as usize);
    assert_eq!(handler.addr, dummy_handler as usize);
}

#[test]
fn interrupt_handler_new_tracks_address() {
    let handler = InterruptHandler::new(dummy_address());
    assert_eq!(handler.addr, dummy_address());
}

#[test]
fn idt_new_initialises_all_entries_missing() {
    let idt = Idt::new();
    for entry in idt.entries().iter().copied() {
        let IdtEntry { offset_low, selector, ist, type_attr, offset_mid, offset_high, .. } = entry;
        assert_eq!(offset_low, 0);
        assert_eq!(selector, 0);
        assert_eq!(ist, 0);
        assert_eq!(type_attr, 0);
        assert_eq!(offset_mid, 0);
        assert_eq!(offset_high, 0);
    }
    assert_eq!(idt.entries().len(), 256);
}

#[test]
fn idt_set_gate_populates_vector_entry() {
    let mut idt = Idt::new();
    let selector = 0x0028u16;
    let options = GateOptions::interrupt().with_privilege(2);
    let type_attr = options.type_attr;
    let ist = options.ist;

    idt.set_gate(0x21, InterruptHandler::new(dummy_address()), selector, options);

    let entry = idt.entry(0x21);
    let handler_addr = dummy_address() as u64;
    let IdtEntry {
        selector: actual_selector,
        type_attr: actual_attr,
        ist: actual_ist,
        offset_low,
        offset_mid,
        offset_high,
        ..
    } = entry;
    assert_eq!(actual_selector, selector);
    assert_eq!(actual_attr, type_attr);
    assert_eq!(actual_ist, ist);
    assert_eq!(offset_low as u64, handler_addr & 0xFFFF);
    assert_eq!(offset_mid as u64, (handler_addr >> 16) & 0xFFFF);
    assert_eq!(offset_high as u64, (handler_addr >> 32) & 0xFFFF_FFFF);
}

#[test]
fn idt_clear_gate_resets_vector_entry() {
    let mut idt = Idt::new();
    let selector = 0x0028u16;
    idt.set_gate(0x10, InterruptHandler::new(dummy_address()), selector, GateOptions::interrupt());
    idt.clear_gate(0x10);

    let entry = idt.entry(0x10);
    let IdtEntry { selector, type_attr, offset_low, offset_mid, offset_high, .. } = entry;
    assert_eq!(selector, 0);
    assert_eq!(type_attr, 0);
    assert_eq!(offset_low, 0);
    assert_eq!(offset_mid, 0);
    assert_eq!(offset_high, 0);
}

#[test]
fn idt_pointer_new_matches_entry_slice_layout() {
    let idt = Idt::new();
    let expected_base = idt.entries().as_ptr() as u64;
    let pointer = IdtPointer::new(expected_base);
    let expected_limit = (IDT_ENTRY_BYTES * IDT_ENTRIES - 1) as u16;
    let IdtPointer { limit, base } = pointer;
    assert_eq!(limit, expected_limit);
    assert_eq!(limit, 4095);
    assert_eq!(base, expected_base);
}

#[test]
fn install_gate_sets_present_bit() {
    let mut idt = Idt::new();
    let selector = 0x0030u16;
    let options = GateOptions::interrupt().with_present(false);

    install_gate(&mut idt, 0x40, dummy_address(), selector, options);

    let entry = idt.entry(0x40);
    let IdtEntry { selector: actual_selector, type_attr, .. } = entry;
    assert_eq!(actual_selector, selector);
    assert_ne!(type_attr & 0b1000_0000, 0);
}

#[test]
fn configure_exceptions_installs_expected_vectors() {
    let mut idt = Idt::new();
    let selector = 0x0040u16;
    let handlers = ExceptionHandlers {
        divide_error: dummy_address(),
        breakpoint: dummy_address(),
        invalid_opcode: dummy_address(),
        double_fault: dummy_address(),
        general_protection: dummy_address(),
        page_fault: dummy_address(),
    };
    configure_exceptions(&mut idt, selector, &handlers);

    let expected = [
        (0x00u8, GateOptions::interrupt()),
        (0x03u8, GateOptions::trap()),
        (0x06u8, GateOptions::interrupt()),
        (0x08u8, GateOptions::interrupt()),
        (0x0Du8, GateOptions::interrupt()),
        (0x0Eu8, GateOptions::interrupt()),
    ];

    for (vector, opts) in expected {
        let entry = idt.entry(vector);
        let IdtEntry {
            selector: actual_selector,
            type_attr,
            offset_low,
            offset_mid,
            offset_high,
            ..
        } = entry;
        assert_eq!(actual_selector, selector);
        assert_eq!(type_attr, opts.type_attr);
        assert!(offset_low != 0 || offset_mid != 0 || offset_high != 0);
    }
}

#[test]
fn configure_irqs_installs_expected_vectors() {
    let mut idt = Idt::new();
    let selector = 0x0050u16;
    let handlers = IrqHandlers { timer: dummy_address(), keyboard: dummy_address() };
    configure_irqs(&mut idt, selector, &handlers);

    let expected = [(0x20u8, GateOptions::interrupt()), (0x21u8, GateOptions::interrupt())];

    for (vector, opts) in expected {
        let entry = idt.entry(vector);
        let IdtEntry {
            selector: actual_selector,
            type_attr,
            offset_low,
            offset_mid,
            offset_high,
            ..
        } = entry;
        assert_eq!(actual_selector, selector);
        assert_eq!(type_attr, opts.type_attr);
        assert!(offset_low != 0 || offset_mid != 0 || offset_high != 0);
    }
}

#[test]
fn sanity_test() {
    assert_eq!(1, 1);
}

#[test]
fn configure_exceptions_leaves_other_vectors_alone() {
    let mut idt = Idt::new();
    let handlers = ExceptionHandlers {
        divide_error: 0x1000,
        breakpoint: 0x2000,
        invalid_opcode: 0x3000,
        double_fault: 0x4000,
        general_protection: 0x5000,
        page_fault: 0x6000,
    };
    configure_exceptions(&mut idt, 8, &handlers);
    let touched = [0x00usize, 0x03, 0x06, 0x08, 0x0d, 0x0e];
    for vector in 0..256usize {
        let entry = idt.entry(vector as u8);
        if touched.contains(&vector) {
            assert_eq!(entry.selector, 8);
        } else {
            assert_eq!(entry, IdtEntry::missing());
        }
    }
    assert_eq!(idt.entry(0x03).offset_low, 0x2000);
    assert_eq!(idt.entry(0x0e).offset_low, 0x6000);
}

#[test]
fn entry_splits_handler_address_in_three() {
    let entry = IdtEntry::new(0x1122_3344_5566_7788usize, 0x08, GateOptions::trap().with_ist(5));
    assert_eq!(entry.offset_low, 0x7788);
    assert_eq!(entry.offset_mid, 0x5566);
    assert_eq!(entry.offset_high, 0x1122_3344);
    assert_eq!(entry.ist, 5);
    assert_eq!(entry.type_attr, 0x8f);
    assert_eq!(entry.zero, 0);
}

#[test]
fn with_privilege_keeps_other_bits() {
    let options = GateOptions::trap().with_privilege(0b111);
    assert_eq!(options.type_attr, 0b1110_1111);
    let lowered = options.with_privilege(1);
    assert_eq!(lowered.type_attr, 0b1010_1111);
    let present = GateOptions::interrupt().with_present(false).with_present(true);
    assert_eq!(present.type_attr, 0b1000_1110);
}

#[test]
fn first_installation_configures_later_ones_only_load() {
    assert_eq!(plan_installation(false), (IdtAction::ConfigureAndLoad, true));
    assert_eq!(plan_installation(true), (IdtAction::LoadOnly, true));
}
