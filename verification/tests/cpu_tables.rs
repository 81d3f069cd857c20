use kernel::interrupts::{end_of_interrupt_ports, vector_kind, VectorKind};
use kernel::cpu::{interrupts_enabled, msr_halves, msr_value};
use kernel::gdt::{gdt_table, tss_set_exception_stack, tss_set_kernel_stack, Gdt, Tss};
use kernel::interrupts::{
    exc_context, from_user, idt_table, irq_context, pic_init_sequence, Handlers, IdtEntry,
    InterruptStackFrame,
};
use kernel::syscall::{
    efer_with_syscalls, init_writes, syscall_write, MSR_CSTAR, MSR_LSTAR, MSR_SFMASK, MSR_STAR,
    STAR_VALUE, WRITE_ERR_BUFFER, WRITE_ERR_COUNT, WRITE_ERR_FILE, WRITE_ERR_UTF8,
};

#[test]
fn msr_values_split_into_halves() {
    assert_eq!(msr_value(0x1234_5678, 0x9abc_def0), 0x1234_5678_9abc_def0);
    assert_eq!(msr_halves(0x1234_5678_9abc_def0), (0x1234_5678, 0x9abc_def0));
    let (a, b) = msr_halves(0xdead_beef_0000_0001);
    assert_eq!(msr_value(a, b), 0xdead_beef_0000_0001);
    assert!(interrupts_enabled(0x202));
    assert!(!interrupts_enabled(0x2));
}

#[test]
fn segment_descriptors_pack_base_and_limit() {
    let g = Gdt::new(0x1234_5678, 0xf_ffff, 0x9b, 0xa);
    assert_eq!(g.limit1, 0xffff);
    assert_eq!(g.base1, 0x5678);
    assert_eq!(g.base2, 0x34);
    assert_eq!(g.base3, 0x12);
    assert_eq!(g.access, 0x9b);
    assert_eq!(g.limit2_flags, 0xaf);
    let [low, high] = Gdt::new_double(0xffff_8000_1234_5678, 0x67, 0x89, 0);
    assert_eq!(low.base1, 0x5678);
    assert_eq!(low.base3, 0x12);
    assert_eq!(low.limit1, 0x67);
    assert_eq!(high.limit1, 0x8000);
    assert_eq!(high.base1, 0xffff);
    assert_eq!(high.access, 0);
    let d = Gdt::default();
    assert_eq!((d.limit1, d.base1, d.access, d.limit2_flags), (0, 0, 0, 0));
}

#[test]
fn the_kernel_table_has_seven_descriptors() {
    let t = gdt_table(0x1_2345_6000);
    assert_eq!(t.len(), 7);
    assert_eq!(t[1].access, 0x9b);
    assert_eq!(t[2].access, 0x93);
    assert_eq!(t[3].access, 0xf3);
    assert_eq!(t[4].access, 0xfb);
    assert_eq!(t[1].limit2_flags, 0xaf);
    assert_eq!(t[5].access, 0x89);
    assert_eq!(t[5].limit1, 0x67);
    assert_eq!(t[5].base1, 0x6000);
    assert_eq!(t[5].base2, 0x45);
    assert_eq!(t[5].base3, 0x23);
    assert_eq!(t[6].limit1, 0x1);
    assert_eq!(kernel::gdt::info_size(7), 55);
}

#[test]
fn task_state_stacks() {
    let mut tss = Tss::default();
    tss_set_kernel_stack(&mut tss, 0x8000);
    tss_set_exception_stack(&mut tss, 0x9000);
    assert_eq!(tss.rsp, [0x8000, 0, 0]);
    assert_eq!(tss.ist[0], 0x9000);
    assert_eq!(tss.ist[1], 0);
}

#[test]
fn gate_descriptors() {
    let e = IdtEntry::new(0xffff_ffff_8012_3456, true, 8);
    assert_eq!(e.offset_1, 0x3456);
    assert_eq!(e.offset_2, 0x8012);
    assert_eq!(e.offset_3, 0xffff_ffff);
    assert_eq!(e.selector, 0x08);
    assert_eq!(e.ist, 1);
    assert_eq!(e.type_attr, 0x8f);
    let i = IdtEntry::new(0x1000, false, 40);
    assert_eq!(i.ist, 0);
    assert_eq!(i.type_attr, 0x8e);
    let entries: Vec<u64> = (0..256u64).map(|k| 0x1000 + k * 16).collect();
    let t = idt_table(&entries);
    assert_eq!(t.len(), 256);
    assert_eq!(t[255].offset_1, (0x1000 + 255 * 16) as u16);
    assert_eq!(t[31].type_attr, 0x8f);
    assert_eq!(t[32].type_attr, 0x8e);
    assert_eq!(t[2].ist, 1);
    assert_eq!(t[18].ist, 1);
    assert_eq!(kernel::interrupts::info_size(256), 4095);
}

#[test]
fn fixed_handlers_cannot_be_replaced() {
    let mut h = Handlers::new(1, 2);
    assert_eq!(h.handler(0), 1);
    assert_eq!(h.handler(32), 2);
    assert!(h.attach_exc(14, 10, false));
    assert_eq!(h.handler(14), 10);
    assert!(!h.attach_exc(14, 11, true));
    assert_eq!(h.handler(14), 10);
    assert!(h.attach_irq(33, 20, true));
    assert!(h.attach_irq(33, 21, true));
    assert_eq!(h.handler(33), 21);
    assert!(h.attach(200, 30, false));
    assert!(!h.attach(200, 31, false));
}

#[test]
fn interrupt_contexts() {
    let f = InterruptStackFrame { ip: 0x40_1000, cs: 0x23, flags: 0x202, sp: 0x7000, ss: 0x1b };
    assert!(from_user(&f));
    let e = exc_context(&f, 14, 2, 0xdead_0000);
    assert!(e.user);
    assert_eq!((e.exc, e.error, e.address, e.instruction, e.flags), (14, 2, 0xdead_0000, 0x40_1000, 0x202));
    let k = InterruptStackFrame { cs: 0x08, ..f };
    assert!(!from_user(&k));
    let i = irq_context(&k, 33);
    assert_eq!((i.irq, i.flags), (33, 0x202));
}

#[test]
fn the_interrupt_controllers_are_remapped() {
    let s = pic_init_sequence(0xfffb);
    assert_eq!(
        s,
        vec![
            (0, 0, 0x11),
            (1, 0, 0x11),
            (0, 1, 0x20),
            (1, 1, 0x28),
            (0, 1, 0x04),
            (1, 1, 0x02),
            (0, 1, 0x01),
            (1, 1, 0x01),
            (0, 1, 0xfb),
            (1, 1, 0xff),
        ]
    );
}

#[test]
fn write_checks_its_arguments_in_order() {
    let text = b"hello";
    assert_eq!(syscall_write(1, 5, Some(&text[..])), 5);
    assert_eq!(syscall_write(2, 5, Some(&text[..])), 5);
    assert_eq!(syscall_write(3, 5, Some(&text[..])), WRITE_ERR_FILE);
    assert_eq!(syscall_write(1, usize::MAX, None), WRITE_ERR_COUNT);
    assert_eq!(syscall_write(7, usize::MAX, None), WRITE_ERR_COUNT);
    assert_eq!(syscall_write(1, 0, None), 0);
    assert_eq!(syscall_write(1, 3, None), WRITE_ERR_BUFFER);
    let bad = [0xffu8, 0xfe];
    assert_eq!(syscall_write(1, 2, Some(&bad[..])), WRITE_ERR_UTF8);
    assert_eq!(WRITE_ERR_FILE, -1);
    assert_eq!(WRITE_ERR_UTF8, -2);
    assert_eq!(WRITE_ERR_BUFFER, -3);
    assert_eq!(WRITE_ERR_COUNT, -4);
}

#[test]
fn syscall_registers() {
    assert_eq!(STAR_VALUE, (0x13u64 << 48) | (0x8u64 << 32));
    assert_eq!(
        init_writes(0xffff_ffff_8000_1000),
        vec![(MSR_STAR, STAR_VALUE), (MSR_LSTAR, 0xffff_ffff_8000_1000), (MSR_CSTAR, 0), (MSR_SFMASK, 0x200)]
    );
    assert_eq!(efer_with_syscalls(0xd00), 0xd01);
    assert_eq!(efer_with_syscalls(0xd01), 0xd01);
}

#[test]
fn vectors_are_sorted_by_kind() {
    assert_eq!(vector_kind(0), VectorKind::Exception);
    assert_eq!(vector_kind(8), VectorKind::ExceptionWithCode);
    assert_eq!(vector_kind(14), VectorKind::ExceptionWithCode);
    assert_eq!(vector_kind(15), VectorKind::Exception);
    assert_eq!(vector_kind(30), VectorKind::ExceptionWithCode);
    assert_eq!(vector_kind(31), VectorKind::Exception);
    assert_eq!(vector_kind(32), VectorKind::PrimaryIrq);
    assert_eq!(vector_kind(39), VectorKind::PrimaryIrq);
    assert_eq!(vector_kind(40), VectorKind::SecondaryIrq);
    assert_eq!(vector_kind(47), VectorKind::SecondaryIrq);
    assert_eq!(vector_kind(48), VectorKind::Irq);
    assert_eq!(vector_kind(254), VectorKind::Irq);
    assert_eq!(vector_kind(255), VectorKind::Spurious);
    assert_eq!(end_of_interrupt_ports(VectorKind::PrimaryIrq), vec![0x20]);
    assert_eq!(end_of_interrupt_ports(VectorKind::SecondaryIrq), vec![0xa0, 0x20]);
    assert!(end_of_interrupt_ports(VectorKind::Irq).is_empty());
    assert!(end_of_interrupt_ports(VectorKind::Exception).is_empty());
}

#[test]
fn descriptors_pack_into_the_layout_the_processor_reads() {
    let table = gdt_table(0x1122_3344_5566_7788);
    assert_eq!(table[0].to_bits(), 0);
    assert_eq!(table[1].to_bits(), 0x00af_9b00_0000_ffff);
    assert_eq!(table[2].to_bits(), 0x00af_9300_0000_ffff);
    assert_eq!(table[5].to_bits(), 0x5500_8966_7788_0067);
    assert_eq!(table[6].to_bits(), 0x0000_0000_1122_3344);
    let e = IdtEntry::new(0x1234_5678_9abc_def0, false, 2);
    assert_eq!(e.to_bits(), (0x9abc_8e01_0008_def0, 0x1234_5678));
}
