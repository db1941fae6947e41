//! CPU exceptions raised by user programs: which fault a handler reports,
//! the line logged for it, and the request to end the faulting process.
use vstd::prelude::*;
use vstd::string::StringSliceAdditionalSpecFns;
use crate::process::{ProcessFault, ProcessId};
use crate::process::table::{ProcessSystem, request_current_user_fault, current_process};
use crate::shell::{decimal, hex_char, write_u64};

verus! {

/// The registers saved on entry to an interrupt handler.
#[derive(Clone, Copy)]
pub struct InterruptFrame {
    pub r15: u64,
    pub r14: u64,
    pub r13: u64,
    pub r12: u64,
    pub r11: u64,
    pub r10: u64,
    pub r9: u64,
    pub r8: u64,
    pub rbp: u64,
    pub rdi: u64,
    pub rsi: u64,
    pub rdx: u64,
    pub rcx: u64,
    pub rbx: u64,
    pub rax: u64,
    pub int_no: u64,
    pub err_code: u64,
    pub rip: u64,
    pub cs: u64,
    pub rflags: u64,
    pub rsp: u64,
    pub ss: u64,
}

/// Whether the interrupted code ran in ring 3.
pub open spec fn user_mode(frame: InterruptFrame) -> bool {
    frame.cs & 3 == 3
}

pub fn is_user_mode(frame: &InterruptFrame) -> (r: bool)
    ensures
        r == user_mode(*frame),
{
    frame.cs & 3 == 3
}

/// The hexadecimal digits of `v` without leading zeros ("0" for zero).
pub open spec fn hex_min(v: nat) -> Seq<u8>
    decreases v,
{
    if v < 16 { seq![hex_char(v as int)] } else { hex_min(v / 16) + seq![hex_char((v % 16) as int)] }
}

/// Appends `v` in hexadecimal without leading zeros.
pub fn write_hex_min(out: &mut Vec<u8>, v: u64)
    ensures
        final(out)@ == old(out)@ + hex_min(v as nat),
    decreases v,
{
    if v >= 16 {
        write_hex_min(out, v / 16);
    }
    let d = (v % 16) as u8;
    out.push(if d < 10 { 48u8 + d } else { 87u8 + d });
    assert(out@ =~= old(out)@ + hex_min(v as nat));
}

/// `0x` and `v` in hexadecimal.
pub open spec fn hex_text(v: u64) -> Seq<u8> {
    seq![48u8, 120u8] + hex_min(v as nat)
}

/// The line logged when a user program faults: its process, the reason,
/// where it was, the faulting address when there is one, and the error code.
pub open spec fn fault_line(pid: u64, reason: Seq<u8>, frame: InterruptFrame, addr: u64) -> Seq<u8> {
    "[USER-FAULT] pid=".spec_bytes() + decimal(pid as nat) + " reason=".spec_bytes() + reason
        + " rip=".spec_bytes() + hex_text(frame.rip) + " rsp=".spec_bytes() + hex_text(frame.rsp)
        + (if addr != 0 { " addr=".spec_bytes() + hex_text(addr) } else { Seq::empty() })
        + " err=".spec_bytes() + hex_text(frame.err_code) + "\r\n".spec_bytes()
}

fn push(out: &mut Vec<u8>, s: &str)
    ensures
        final(out)@ == old(out)@ + s.spec_bytes(),
{
    crate::storage::gpt::push_all(out, s.as_bytes());
}

fn push_hex(out: &mut Vec<u8>, v: u64)
    ensures
        final(out)@ == old(out)@ + hex_text(v),
{
    out.push(48u8);
    out.push(120u8);
    write_hex_min(out, v);
    assert(out@ =~= old(out)@ + hex_text(v));
}

pub fn fault_report(pid: u64, reason: &str, frame: &InterruptFrame, addr: u64) -> (r: Vec<u8>)
    ensures
        r@ == fault_line(pid, reason.spec_bytes(), *frame, addr),
{
    let mut out: Vec<u8> = Vec::new();
    push(&mut out, "[USER-FAULT] pid=");
    write_u64(&mut out, pid);
    push(&mut out, " reason=");
    push(&mut out, reason);
    push(&mut out, " rip=");
    push_hex(&mut out, frame.rip);
    push(&mut out, " rsp=");
    push_hex(&mut out, frame.rsp);
    let ghost mid = out@;
    if addr != 0 {
        push(&mut out, " addr=");
        push_hex(&mut out, addr);
    }
    push(&mut out, " err=");
    push_hex(&mut out, frame.err_code);
    push(&mut out, "\r\n");
    assert(out@ =~= fault_line(pid, reason.spec_bytes(), *frame, addr));
    out
}

/// Ends the current user process for `fault`: the log line, and the exit
/// request recorded against the process (no request without a current user
/// process).
fn terminate_current_process(sys: &mut ProcessSystem, reason: &str, frame: &InterruptFrame, fault_addr: u64, fault: ProcessFault) -> (r: (Vec<u8>, Option<ProcessId>))
    requires
        old(sys).wf(),
    ensures
        final(sys).table == old(sys).table,
        r.1 == request_outcome(&*old(sys)),
        r.1 is Some ==> final(sys).exit_requested && final(sys).exit_code == crate::process::fault_exit_code(fault),
        r.1 is None ==> *final(sys) == *old(sys),
        r.0@ == fault_line(current_pid(&*old(sys)), reason.spec_bytes(), *frame, fault_addr),
{
    let pid = match current_process(sys) {
        Some(p) => p.pid.0,
        None => 0,
    };
    let line = fault_report(pid, reason, frame, fault_addr);
    let who = request_current_user_fault(sys, fault);
    (line, who)
}

/// The current process's number, 0 when there is none.
pub open spec fn current_pid(sys: &ProcessSystem) -> u64 {
    if crate::process::table::has_current_process(sys) { crate::process::table::current_process_of(sys).pid.0 } else { 0 }
}

/// Which process a fault request is recorded against: the current one when
/// it is a user process.
pub open spec fn request_outcome(sys: &ProcessSystem) -> Option<ProcessId> {
    if crate::process::table::has_current_process(sys) && !crate::process::table::current_process_of(sys).is_kernel {
        Some(crate::process::table::current_process_of(sys).pid)
    } else {
        None
    }
}

/// A divide error in a user program ends the program.
pub fn handle_divide_by_zero(sys: &mut ProcessSystem, frame: &InterruptFrame) -> (r: (Vec<u8>, Option<ProcessId>))
    requires
        old(sys).wf(),
        user_mode(*frame),
    ensures
        final(sys).table == old(sys).table,
        r.1 == request_outcome(&*old(sys)),
        r.1 is Some ==> final(sys).exit_requested && final(sys).exit_code == crate::process::fault_exit_code(ProcessFault::DivideByZero),
        r.1 is None ==> *final(sys) == *old(sys),
        r.0@ == fault_line(current_pid(&*old(sys)), "divide-by-zero".spec_bytes(), *frame, 0),
{
    terminate_current_process(sys, "divide-by-zero", frame, 0, ProcessFault::DivideByZero)
}

/// An invalid opcode in a user program ends the program.
pub fn handle_invalid_opcode(sys: &mut ProcessSystem, frame: &InterruptFrame) -> (r: (Vec<u8>, Option<ProcessId>))
    requires
        old(sys).wf(),
        user_mode(*frame),
    ensures
        final(sys).table == old(sys).table,
        r.1 == request_outcome(&*old(sys)),
        r.1 is Some ==> final(sys).exit_requested && final(sys).exit_code == crate::process::fault_exit_code(ProcessFault::InvalidOpcode),
        r.1 is None ==> *final(sys) == *old(sys),
        r.0@ == fault_line(current_pid(&*old(sys)), "invalid-opcode".spec_bytes(), *frame, 0),
{
    terminate_current_process(sys, "invalid-opcode", frame, 0, ProcessFault::InvalidOpcode)
}

/// A general protection fault in a user program ends the program.
pub fn handle_general_protection_fault(sys: &mut ProcessSystem, frame: &InterruptFrame) -> (r: (Vec<u8>, Option<ProcessId>))
    requires
        old(sys).wf(),
        user_mode(*frame),
    ensures
        final(sys).table == old(sys).table,
        r.1 == request_outcome(&*old(sys)),
        r.1 is Some ==> final(sys).exit_requested && final(sys).exit_code == crate::process::fault_exit_code(ProcessFault::GeneralProtection),
        r.1 is None ==> *final(sys) == *old(sys),
        r.0@ == fault_line(current_pid(&*old(sys)), "general-protection".spec_bytes(), *frame, 0),
{
    terminate_current_process(sys, "general-protection", frame, 0, ProcessFault::GeneralProtection)
}

/// A page fault in a user program ends the program; `cr2` is the address.
pub fn handle_page_fault(sys: &mut ProcessSystem, frame: &InterruptFrame, cr2: u64) -> (r: (Vec<u8>, Option<ProcessId>))
    requires
        old(sys).wf(),
        user_mode(*frame),
    ensures
        final(sys).table == old(sys).table,
        r.1 == request_outcome(&*old(sys)),
        r.1 is Some ==> final(sys).exit_requested && final(sys).exit_code == crate::process::fault_exit_code(ProcessFault::PageFault),
        r.1 is None ==> *final(sys) == *old(sys),
        r.0@ == fault_line(current_pid(&*old(sys)), "page-fault".spec_bytes(), *frame, cr2),
{
    terminate_current_process(sys, "page-fault", frame, cr2, ProcessFault::PageFault)
}

/// Debug traps are ignored.
pub fn handle_debug(frame: &InterruptFrame) {
}

/// Breakpoints are ignored.
pub fn handle_breakpoint(frame: &InterruptFrame) {
}

/// Overflow traps are ignored.
pub fn handle_overflow(frame: &InterruptFrame) {
}

/// Bound-range exceptions are ignored.
pub fn handle_bound_range(frame: &InterruptFrame) {
}

/// x87 floating-point exceptions are ignored.
pub fn handle_x87_floating_point(frame: &InterruptFrame) {
}

/// SIMD floating-point exceptions are ignored.
pub fn handle_simd_floating_point(frame: &InterruptFrame) {
}

/// Virtualization exceptions are ignored.
pub fn handle_virtualization(frame: &InterruptFrame) {
}

/// Which interrupt controllers must be told an unknown interrupt is done:
/// (secondary, primary) for IRQs 8..15 (vectors 40..47), only the primary
/// for IRQs 0..7 (vectors 32..39).
pub fn unknown_interrupt_eoi(int_no: u64) -> (r: (bool, bool))
    ensures
        r == (40 <= int_no < 48, 32 <= int_no < 48),
{
    if int_no >= 40 && int_no < 48 {
        (true, true)
    } else if int_no >= 32 && int_no < 40 {
        (false, true)
    } else {
        (false, false)
    }
}

} // verus!
