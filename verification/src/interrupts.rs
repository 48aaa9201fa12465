//! The interrupt descriptor table: gates, their options, and the table of
//! 256 of them. Loading the table into the processor is the caller's part.

use vstd::prelude::*;

verus! {

/// Number of gates in the table.
pub const IDT_ENTRIES: usize = 256;

/// Bytes of one gate as the processor reads it.
pub const IDT_ENTRY_BYTES: usize = 16;

/// Gate type of an interrupt gate, present, privilege level 0.
pub const INTERRUPT_GATE: u8 = 0x8e;

/// Gate type of a trap gate, present, privilege level 0.
pub const TRAP_GATE: u8 = 0x8f;

/// Why the table could not be installed.
#[derive(Debug, Clone, Copy, PartialEq, Eq, Structural)]
pub enum InterruptInitError {
    /// The table was installed before.
    AlreadyInitialized,
}

/// The attributes of a gate. `type_attr` holds, from the top bit down: the
/// present bit, two bits of privilege level, a zero bit, and four bits of
/// gate type (0xE interrupt, 0xF trap). `ist` selects an interrupt stack.
#[derive(Clone, Copy, Debug, PartialEq, Eq, Structural)]
pub struct GateOptions {
    pub type_attr: u8,
    pub ist: u8,
}

impl GateOptions {
    /// A present interrupt gate at privilege level 0.
    pub fn interrupt() -> (r: Self)
        ensures
            r == (GateOptions { type_attr: 0x8e, ist: 0 }),
    {
        GateOptions { type_attr: 0x8e, ist: 0 }
    }

    /// A present trap gate at privilege level 0.
    pub fn trap() -> (r: Self)
        ensures
            r == (GateOptions { type_attr: 0x8f, ist: 0 }),
    {
        GateOptions { type_attr: 0x8f, ist: 0 }
    }

    /// The same gate at the privilege level given by the low two bits of
    /// `dpl`.
    pub fn with_privilege(self, dpl: u8) -> (r: Self)
        ensures
            r.ist == self.ist,
            r.type_attr == (self.type_attr & 0x9f) | ((dpl & 3) << 5),
            r.type_attr & 0x9f == self.type_attr & 0x9f,
            (r.type_attr >> 5) & 3 == dpl & 3,
    {
        let cleared: u8 = self.type_attr & 0x9f;
        let level: u8 = dpl & 3;
        let attr: u8 = self.type_attr;
        assert(((attr & 0x9f) | ((dpl & 3) << 5)) & 0x9f == attr & 0x9f) by (bit_vector);
        assert((((attr & 0x9f) | ((dpl & 3) << 5)) >> 5) & 3 == dpl & 3) by (bit_vector);
        let updated: u8 = cleared | (level << 5);
        GateOptions { type_attr: updated, ist: self.ist }
    }

    /// The same gate with the present bit set or cleared.
    pub fn with_present(self, present: bool) -> (r: Self)
        ensures
            r.ist == self.ist,
            r.type_attr == if present {
                self.type_attr | 0x80
            } else {
                self.type_attr & 0x7f
            },
            r.type_attr & 0x7f == self.type_attr & 0x7f,
            (r.type_attr & 0x80 != 0) == present,
    {
        let attr: u8 = self.type_attr;
        assert((attr | 0x80) & 0x7f == attr & 0x7f && (attr | 0x80) & 0x80 != 0) by (bit_vector);
        assert((attr & 0x7f) & 0x7f == attr & 0x7f && (attr & 0x7f) & 0x80 == 0) by (bit_vector);
        let updated: u8 = if present {
            self.type_attr | 0x80
        } else {
            self.type_attr & 0x7f
        };
        GateOptions { type_attr: updated, ist: self.ist }
    }

    /// The same gate on the interrupt stack given by the low three bits of
    /// `ist_index`.
    pub fn with_ist(self, ist_index: u8) -> (r: Self)
        ensures
            r.type_attr == self.type_attr,
            r.ist == ist_index & 7,
            r.ist <= 7,
    {
        assert(ist_index & 7 <= 7) by (bit_vector);
        GateOptions { type_attr: self.type_attr, ist: ist_index & 7 }
    }
}

/// The address of the entry point of an interrupt handler.
#[derive(Clone, Copy, Debug, PartialEq, Eq, Structural)]
pub struct InterruptHandler {
    pub addr: usize,
}

impl InterruptHandler {
    /// A handler at the address `addr`.
    pub fn new(addr: usize) -> (r: Self)
        ensures
            r.addr == addr,
    {
        InterruptHandler { addr }
    }

    /// A handler for the function whose entry point lies at `handler`: the
    /// caller, who names the function, gives its address.
    pub fn from_fn(handler: usize) -> (r: Self)
        ensures
            r.addr == handler,
    {
        InterruptHandler { addr: handler }
    }

    /// The address of the entry point.
    pub fn address(self) -> (r: usize)
        ensures
            r == self.addr,
    {
        self.addr
    }
}

/// One gate of the table, field by field as the processor reads it: the
/// address of the handler is split in three.
#[derive(Clone, Copy, Debug, PartialEq, Eq, Structural)]
pub struct IdtEntry {
    pub offset_low: u16,
    pub selector: u16,
    pub ist: u8,
    pub type_attr: u8,
    pub offset_mid: u16,
    pub offset_high: u32,
    pub zero: u32,
}

/// A gate without a handler: every field zero.
pub open spec fn missing_entry() -> IdtEntry {
    IdtEntry {
        offset_low: 0,
        selector: 0,
        ist: 0,
        type_attr: 0,
        offset_mid: 0,
        offset_high: 0,
        zero: 0,
    }
}

/// A gate for the handler at `handler`.
pub open spec fn gate_entry(handler: usize, selector: u16, options: GateOptions) -> IdtEntry {
    IdtEntry {
        offset_low: ((handler as u64) & 0xffff) as u16,
        selector,
        ist: options.ist,
        type_attr: options.type_attr,
        offset_mid: (((handler as u64) >> 16) & 0xffff) as u16,
        offset_high: (((handler as u64) >> 32) & 0xffff_ffff) as u32,
        zero: 0,
    }
}

/// The address that the three parts of a gate stand for.
pub open spec fn entry_handler(entry: IdtEntry) -> int {
    entry.offset_low + entry.offset_mid * 0x1_0000 + entry.offset_high * 0x1_0000_0000
}

/// The three parts of a gate put together give the address of its handler.
pub proof fn lemma_gate_entry_handler(handler: usize, selector: u16, options: GateOptions)
    ensures
        entry_handler(gate_entry(handler, selector, options)) == handler,
{
    let h = handler as u64;
    assert((h & 0xffff) + ((h >> 16) & 0xffff) * 0x1_0000 + ((h >> 32) & 0xffff_ffff)
        * 0x1_0000_0000 == h) by (bit_vector);
    assert(h & 0xffff <= 0xffff) by (bit_vector);
    assert((h >> 16) & 0xffff <= 0xffff) by (bit_vector);
    assert((h >> 32) & 0xffff_ffff <= 0xffff_ffff) by (bit_vector);
}

impl IdtEntry {
    /// A gate without a handler.
    pub fn missing() -> (r: Self)
        ensures
            r == missing_entry(),
    {
        IdtEntry {
            offset_low: 0,
            selector: 0,
            ist: 0,
            type_attr: 0,
            offset_mid: 0,
            offset_high: 0,
            zero: 0,
        }
    }

    /// A gate for the handler at `handler`.
    pub fn new(handler: usize, selector: u16, options: GateOptions) -> (r: Self)
        ensures
            r == gate_entry(handler, selector, options),
            entry_handler(r) == handler,
    {
        let h: u64 = handler as u64;
        proof {
            lemma_gate_entry_handler(handler, selector, options);
        }
        assert(h & 0xffff <= 0xffff) by (bit_vector);
        assert((h >> 16) & 0xffff <= 0xffff) by (bit_vector);
        assert((h >> 32) & 0xffff_ffff <= 0xffff_ffff) by (bit_vector);
        let offset_low: u16 = (h & 0xffff) as u16;
        let offset_mid: u16 = ((h >> 16) & 0xffff) as u16;
        let offset_high: u32 = ((h >> 32) & 0xffff_ffff) as u32;
        IdtEntry {
            offset_low,
            selector,
            ist: options.ist,
            type_attr: options.type_attr,
            offset_mid,
            offset_high,
            zero: 0,
        }
    }
}

/// What the processor is given to find the table: its last byte, counted
/// from its first, and the address of its first.
#[derive(Clone, Copy, Debug, PartialEq, Eq, Structural)]
pub struct IdtPointer {
    pub limit: u16,
    pub base: u64,
}

impl IdtPointer {
    /// The pointer to a table of 256 gates at the address `base`.
    pub fn new(base: u64) -> (r: Self)
        ensures
            r.base == base,
            r.limit == IDT_ENTRIES * IDT_ENTRY_BYTES - 1,
    {
        let size: usize = IDT_ENTRY_BYTES * IDT_ENTRIES;
        IdtPointer { limit: (size - 1) as u16, base }
    }
}

/// The interrupt descriptor table.
pub struct Idt {
    entries: Vec<IdtEntry>,
}

impl Idt {
    /// its gates, by vector.
    pub closed spec fn view(&self) -> Seq<IdtEntry> {
        self.entries@
    }

    /// The table has its 256 gates.
    pub open spec fn wf(&self) -> bool {
        self@.len() == IDT_ENTRIES
    }

    /// A table in which no vector has a handler.
    pub fn new() -> (r: Self)
        ensures
            r.wf(),
            forall|v: int| 0 <= v < IDT_ENTRIES ==> #[trigger] r@[v] == missing_entry(),
    {
        let mut entries: Vec<IdtEntry> = Vec::new();
        let mut i: usize = 0;
        while i < IDT_ENTRIES
            invariant
                i <= IDT_ENTRIES,
                entries@.len() == i,
                forall|v: int| 0 <= v < i ==> #[trigger] entries@[v] == missing_entry(),
            decreases IDT_ENTRIES - i,
        {
            entries.push(IdtEntry::missing());
            i = i + 1;
        }
        Idt { entries }
    }

    /// What the table holds for a vector.
    pub fn entry(&self, vector: u8) -> (r: IdtEntry)
        requires
            self.wf(),
        ensures
            r == self@[vector as int],
    {
        self.entries[vector as usize]
    }

    /// its gates as they lie in memory.
    pub fn entries(&self) -> (r: &[IdtEntry])
        ensures
            r@ == self@,
    {
        self.entries.as_slice()
    }

    /// Gives the vector the handler, and leaves every other vector alone.
    pub fn set_gate(
        &mut self,
        vector: u8,
        handler: InterruptHandler,
        selector: u16,
        options: GateOptions,
    )
        requires
            old(self).wf(),
        ensures
            final(self).wf(),
            final(self)@ == old(self)@.update(
                vector as int,
                gate_entry(handler.addr, selector, options),
            ),
    {
        self.entries.set(vector as usize, IdtEntry::new(handler.address(), selector, options));
    }

    /// Takes the handler from the vector, and leaves every other vector
    /// alone.
    pub fn clear_gate(&mut self, vector: u8)
        requires
            old(self).wf(),
        ensures
            final(self).wf(),
            final(self)@ == old(self)@.update(vector as int, missing_entry()),
    {
        self.entries.set(vector as usize, IdtEntry::missing());
    }
}

impl Default for Idt {
    fn default() -> (r: Self)
        ensures
            r.wf(),
            forall|v: int| 0 <= v < IDT_ENTRIES ==> #[trigger] r@[v] == missing_entry(),
    {
        Idt::new()
    }
}

/// Installs a handler for a vector. Its gate is made present whatever the
/// options say.
pub fn install_gate(idt: &mut Idt, vector: u8, handler: usize, selector: u16, options: GateOptions)
    requires
        old(idt).wf(),
    ensures
        final(idt).wf(),
        final(idt)@ == old(idt)@.update(
            vector as int,
            gate_entry(
                handler,
                selector,
                GateOptions { type_attr: options.type_attr | 0x80, ist: options.ist },
            ),
        ),
{
    idt.set_gate(vector, InterruptHandler::new(handler), selector, options.with_present(true));
}

/// The addresses of the handlers of the processor exceptions that the
/// kernel handles.
#[derive(Clone, Copy, Debug, PartialEq, Eq, Structural)]
pub struct ExceptionHandlers {
    pub divide_error: usize,
    pub breakpoint: usize,
    pub invalid_opcode: usize,
    pub double_fault: usize,
    pub general_protection: usize,
    pub page_fault: usize,
}

/// The addresses of the handlers of the two legacy interrupts that the
/// kernel handles.
#[derive(Clone, Copy, Debug, PartialEq, Eq, Structural)]
pub struct IrqHandlers {
    pub timer: usize,
    pub keyboard: usize,
}

/// What `install_gate` writes for an interrupt gate.
pub open spec fn interrupt_gate(handler: usize, selector: u16) -> IdtEntry {
    gate_entry(handler, selector, GateOptions { type_attr: 0x8e, ist: 0 })
}

/// What `install_gate` writes for a trap gate.
pub open spec fn trap_gate(handler: usize, selector: u16) -> IdtEntry {
    gate_entry(handler, selector, GateOptions { type_attr: 0x8f, ist: 0 })
}

/// Installs the handlers of the processor exceptions: divide error (0),
/// breakpoint (3), invalid opcode (6), double fault (8), general protection
/// (13) and page fault (14). The breakpoint gets a trap gate, the others
/// interrupt gates. Every other vector is left alone.
pub fn configure_exceptions(idt: &mut Idt, selector: u16, handlers: &ExceptionHandlers)
    requires
        old(idt).wf(),
    ensures
        final(idt).wf(),
        final(idt)@
            == old(idt)@.update(0x00, interrupt_gate(handlers.divide_error, selector)).update(
            0x03,
            trap_gate(handlers.breakpoint, selector),
        ).update(0x06, interrupt_gate(handlers.invalid_opcode, selector)).update(
            0x08,
            interrupt_gate(handlers.double_fault, selector),
        ).update(0x0d, interrupt_gate(handlers.general_protection, selector)).update(
            0x0e,
            interrupt_gate(handlers.page_fault, selector),
        ),
{
    assert(0x8eu8 | 0x80 == 0x8e && 0x8fu8 | 0x80 == 0x8f) by (bit_vector);
    install_gate(idt, 0x00, handlers.divide_error, selector, GateOptions::interrupt());
    install_gate(idt, 0x03, handlers.breakpoint, selector, GateOptions::trap());
    install_gate(idt, 0x06, handlers.invalid_opcode, selector, GateOptions::interrupt());
    install_gate(idt, 0x08, handlers.double_fault, selector, GateOptions::interrupt());
    install_gate(idt, 0x0d, handlers.general_protection, selector, GateOptions::interrupt());
    install_gate(idt, 0x0e, handlers.page_fault, selector, GateOptions::interrupt());
}

/// Installs the handlers of the timer (0x20) and the keyboard (0x21), both
/// with interrupt gates. Every other vector is left alone.
pub fn configure_irqs(idt: &mut Idt, selector: u16, handlers: &IrqHandlers)
    requires
        old(idt).wf(),
    ensures
        final(idt).wf(),
        final(idt)@ == old(idt)@.update(0x20, interrupt_gate(handlers.timer, selector)).update(
            0x21,
            interrupt_gate(handlers.keyboard, selector),
        ),
{
    assert(0x8eu8 | 0x80 == 0x8e) by (bit_vector);
    install_gate(idt, 0x20, handlers.timer, selector, GateOptions::interrupt());
    install_gate(idt, 0x21, handlers.keyboard, selector, GateOptions::interrupt());
}

/// What installing the table on a processor comes to: the first call
/// configures its gates, every call loads the table.
#[derive(Clone, Copy, Debug, PartialEq, Eq, Structural)]
pub enum IdtAction {
    ConfigureAndLoad,
    LoadOnly,
}

/// Decides what a call to install the table has to do, given whether the
/// gates were configured before, and returns whether they are configured
/// from now on.
pub fn plan_installation(configured: bool) -> (r: (IdtAction, bool))
    ensures
        r.1,
        r.0 == if configured {
            IdtAction::LoadOnly
        } else {
            IdtAction::ConfigureAndLoad
        },
{
    if configured {
        (IdtAction::LoadOnly, true)
    } else {
        (IdtAction::ConfigureAndLoad, true)
    }
}

} // verus!
