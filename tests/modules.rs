use buddy_kernel::cpu::interrupts::interrupt_descriptor_table::{
    Attributes, Descriptor, GateType, InterruptDescriptorTable, Presence,
};
use buddy_kernel::cpu::interrupts::{SegmentSelectorError, SelectorErrorTable};
use buddy_kernel::cpu::segments::{DescriptorTable, SegmentSelector};
use buddy_kernel::cpu::PrivilegeLevel;
use buddy_kernel::drivers::framebuffer::{Framebuffer, FramebufferDescription, FramebufferInfo, RGB};
use buddy_kernel::memory::paging::{PageTable, PageTableEntry, PageTableEntryFlags, PRESENT, WRITABLE, NO_EXECUTE};
use buddy_kernel::memory::{align_down, align_up, is_aligned, is_power_of_two, PhysicalAddress, VirtualAddress};
use buddy_kernel::terminal::logger::{chars_of, LogLevel, Logger};
use buddy_kernel::terminal::tty::{BufferWriter, Style, TerminalBuffer};

#[test]
fn alignment_helpers() {
    assert!(is_power_of_two(4096));
    assert!(!is_power_of_two(0));
    assert!(!is_power_of_two(4097));
    assert!(is_aligned(0x3000, 4096));
    assert!(!is_aligned(0x3001, 4096));
    assert_eq!(align_up(0x3001, 4096), 0x4000);
    assert_eq!(align_up(0x3000, 4096), 0x3000);
    assert_eq!(align_down(0x3fff, 4096), 0x3000);
}

#[test]
fn addresses() {
    let p = PhysicalAddress::from(0x1000).add(0x234);
    assert_eq!(p.value(), 0x1234);
    assert_eq!(p.sub(0x34).value(), 0x1200);
    assert_eq!(p.sub_address(PhysicalAddress::from(0x1000)).value(), 0x234);
    assert_eq!(p.to_virtual(0xffff_8000_0000_0000).value(), 0xffff_8000_0000_1234);
    assert!(VirtualAddress::from(0x7fff_ffff_ffff).is_canonical());
    assert_eq!(VirtualAddress::sign_extend_value(0x0000_8000_0000_0000), 0xffff_8000_0000_0000);
    assert_eq!(VirtualAddress::sign_extend_value(0x1234_0000_0000_1000), 0x1000);
    assert_eq!(VirtualAddress::from(0xffff_8000_0000_0000).sign_extension(), 0xffff);
    let v = VirtualAddress::from(0xffff_8000_0000_5000);
    assert_eq!(v.to_physical(0xffff_8000_0000_0000), PhysicalAddress(0x5000));
}

#[test]
fn rgb_channels_and_blend() {
    let c = RGB::new(0x12, 0x34, 0x56);
    assert_eq!(c.value(), 0x123456);
    assert_eq!((c.red(), c.green(), c.blue()), (0x12, 0x34, 0x56));
    let fg = RGB::from_hex(0xff0000);
    let bg = RGB::from_hex(0x0000ff);
    assert_eq!(RGB::alpha_blend(fg, bg, 255), fg);
    assert_eq!(RGB::alpha_blend(fg, bg, 0), bg);
    assert_eq!(RGB::alpha_blend(fg, bg, 128).value(), 0x80007f);
    assert_eq!(u32::from(c), 0x123456);
    assert_eq!(RGB::from(0xabcdef).blue(), 0xef);
}

fn description(bpp: u16, pitch: u64) -> FramebufferDescription {
    FramebufferDescription {
        width: 800,
        height: 600,
        pitch,
        bpp,
        rgb_memory_model: true,
        red_mask_size: 8,
        red_mask_shift: 16,
        green_mask_size: 8,
        green_mask_shift: 8,
        blue_mask_size: 8,
        blue_mask_shift: 0,
    }
}

#[test]
fn framebuffer_info_from_description() {
    assert_eq!(
        FramebufferInfo::from(description(32, 3328)),
        Some(FramebufferInfo { pitch: 832, width: 800, height: 600 })
    );
    assert_eq!(FramebufferInfo::from(description(24, 2400)), None);
    let mut bgr = description(32, 3200);
    bgr.red_mask_shift = 0;
    assert_eq!(FramebufferInfo::from(bgr), None);
    assert_eq!(FramebufferInfo::from(description(32, 3202)), None);
}

#[test]
fn framebuffer_pixels() {
    let mut fb = Framebuffer::new(FramebufferInfo { pitch: 4, width: 3, height: 2 });
    assert_eq!(fb.buffer_len(), 8);
    fb.fill(RGB(7));
    fb.set_pixel_value(2, 1, RGB(9));
    assert_eq!(fb.pixels_slice(), &[7, 7, 7, 7, 7, 7, 9, 7]);
    fb.update_range_from_slice(1, 3, &[1, 2]);
    assert_eq!(fb.pixels_slice(), &[7, 1, 2, 7, 7, 7, 9, 7]);
    fb.update_from_slice(&[0; 8]);
    assert_eq!(fb.pixels_slice(), &[0; 8]);
    assert_eq!((fb.width(), fb.height(), fb.pitch()), (3, 2, 4));
}

#[test]
fn page_table_entries() {
    let mut e = PageTableEntry::new();
    assert!(e.is_unused());
    e.set_flags(PageTableEntryFlags::from_bits_truncate(PRESENT | WRITABLE | 0x5000));
    assert_eq!(e.flags().bits(), PRESENT | WRITABLE);
    assert!(e.flags().contains(PRESENT));
    assert!(!e.flags().contains(NO_EXECUTE));
    assert_eq!(e.address(), PhysicalAddress(0));
    let mut t = PageTable::new();
    assert_eq!(t.entries().len(), 512);
    t.set_entry(3, e);
    assert!(!t.index(3).is_unused());
    t.clear();
    assert!(t.entries().iter().all(|x| x.is_unused()));
}

#[test]
fn segment_selectors() {
    let s = SegmentSelector::new(5, DescriptorTable::GDT, PrivilegeLevel::Ring0);
    assert_eq!(s.0, 0x28);
    assert_eq!(s.index(), 5);
    assert_eq!(s.descriptor_table(), DescriptorTable::GDT);
    let l = SegmentSelector::new(6, DescriptorTable::LDT, PrivilegeLevel::Ring3);
    assert_eq!(l.0, 0x37);
    assert_eq!(l.descriptor_table(), DescriptorTable::LDT);
    assert_eq!(PrivilegeLevel::try_from_u8(2), Some(PrivilegeLevel::Ring2));
    assert_eq!(PrivilegeLevel::try_from_u8(4), None);
}

#[test]
fn selector_error_codes() {
    let e = SegmentSelectorError(0b1_0000_0011);
    assert!(e.external());
    assert_eq!(e.table(), SelectorErrorTable::IDT);
    assert_eq!(e.index(), 0x100);
    assert!(e.is_present());
    assert_eq!(SegmentSelectorError(0b100).table(), SelectorErrorTable::LDT);
    assert!(!SegmentSelectorError(0).is_present());
}

#[test]
fn interrupt_gates() {
    let mut idt = InterruptDescriptorTable::new();
    assert_eq!(idt.gate(14).address(), 0);
    assert_eq!(idt.gate(14).attributes.status(), Presence::Missing);
    idt.set_handler(14, 0xffff_8000_1234_5678, PrivilegeLevel::Ring0, GateType::Interrupt);
    let g = idt.gate(14);
    assert_eq!(g.address(), 0xffff_8000_1234_5678);
    assert_eq!(g.attributes.attributes, 0x8E);
    assert_eq!(g.attributes.status(), Presence::Present);
    assert_eq!(g.attributes.gate_type(), GateType::Interrupt);
    let mut a = Attributes::from(PrivilegeLevel::Ring3, GateType::Trap);
    assert_eq!(a.attributes, 0xEF);
    assert_eq!(a.privilege_level(), PrivilegeLevel::Ring3);
    a.set_privilege_level(PrivilegeLevel::Ring1);
    a.set_gate_type(GateType::Interrupt);
    assert_eq!(a.attributes, 0xAE);
    let mut d = Descriptor::missing();
    d.set_handler_address(0x1_0000_0002);
    assert_eq!((d.address_1, d.address_2, d.address_3), (2, 0, 1));
}

#[test]
fn logger_filters_and_formats() {
    let logger = Logger::new(LogLevel::Warn);
    assert_eq!(logger.info("hidden"), None);
    let line: String = logger.error("disk on fire").unwrap().into_iter().collect();
    assert_eq!(line, "[\x1b[91mERROR\x1b[0m]: disk on fire\n");
    let line: String = logger.warn("é").unwrap().into_iter().collect();
    assert_eq!(line, "[\x1b[33mWARN\x1b[0m]: é\n");
    assert_eq!(chars_of("aé"), vec!['a', 'é']);
}

#[test]
fn buffer_writer_cuts_what_does_not_fit() {
    let mut w = BufferWriter::new(8);
    w.write_str("hello");
    assert_eq!(w.contents(), b"hello");
    w.write_str("world");
    assert_eq!(w.contents(), b"hello");
    w.write_str("!!!");
    assert_eq!(w.contents(), b"hello!!!");
}

#[test]
fn terminal_buffer_lines() {
    let mut b = TerminalBuffer::new(2, 4);
    let style = Style::default();
    b.write_char('x', 0, 2, style);
    assert_eq!(b.get_line_length(0), 3);
    assert_eq!(b.get_line_length(1), 0);
    assert_eq!(b.get_line_length(9), 0);
    // writing the last cell grows the buffer first
    b.write_char('y', 1, 3, style);
    assert_eq!(b.max_lines(), 4);
    assert_eq!(b.get_line_length(1), 4);
    let n = b.write_formatted(&['a', 'b', 'c', 'd', 'e'], 3, 2, style);
    assert_eq!(n, 5);
    assert_eq!(b.max_lines(), 8);
    assert_eq!(b.get_line_length(4), 3);
    b.clear_range(4, 4);
    assert_eq!(b.get_line_length(1), 0);
    assert_eq!(b.get_view(0, 1).iter().filter(|c| c.is_some()).count(), 1);
}
