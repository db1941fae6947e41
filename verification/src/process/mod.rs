//! Processes and threads: identities, exit statuses, the per-process object
//! with its descriptor and capability tables and address space, and the
//! process table with its lifecycle transitions and wait queue.
use vstd::prelude::*;
use crate::assoc::{keys_unique, has_key, to_map, lemma_lookup_at, lemma_lookup_none, lemma_push, lemma_remove};
use crate::fs::vfs::{FileDescriptor, FileSystem, VirtualFileSystem};
use crate::handle::{
    Handle, HandleEntry, HandleError, HandleObject, HandleTable, DeviceOwners, has_rights, same_object,
    try_acquire_display, try_acquire_input, RIGHTS_ALL, RIGHT_DISPLAY_MASTER, RIGHT_INPUT_MASTER, RIGHT_MAP,
    RIGHT_READ, RIGHT_SIGNAL, RIGHT_TRANSFER, RIGHT_WRITE, MAX_MEMORY_OBJECT,
};
use crate::memory::vmm::AddressSpace;
use crate::process::vm::SharedVmRegistry;
use crate::memory::pmm::PhysicalMemoryManager;

pub mod scheduler;
pub mod vm;
pub mod table;

verus! {

/// Identity of a process or of a thread entity in the process table.
#[derive(Debug, Clone, Copy, PartialEq, Eq, PartialOrd, Ord, Hash, Structural)]
pub struct ProcessId(pub u64);

/// Identity of a thread; numerically shared with its table entity.
#[derive(Debug, Clone, Copy, PartialEq, Eq, PartialOrd, Ord, Hash, Structural)]
pub struct ThreadId(pub u64);

pub type ProcessFd = u32;

pub const FIRST_PROCESS_FD: ProcessFd = 3;
pub const MAX_PROCESS_FD: ProcessFd = 1024;
pub const DEFAULT_KERNEL_STACK_SIZE: usize = 0x40000;
pub const WAIT_KIND_EMPTY: i32 = -1;
pub const WAIT_KIND_SPAWN_PREPARED: i32 = -2;

/// Lifecycle of a table entry: prepared (owns its resources, has not run),
/// ready, running, blocked on the wait queue, dead (status kept for the
/// parent), reaped (ownership released).
#[derive(Debug, Clone, Copy, PartialEq, Eq, Structural)]
pub enum ProcessState {
    Prepared,
    Ready,
    Running,
    Blocked,
    Dead,
    Reaped,
}

/// Saved general-purpose registers of a user context.
#[derive(Debug, Clone, Copy, PartialEq, Eq, Structural)]
pub struct CpuContext {
    pub rax: u64,
    pub rbx: u64,
    pub rcx: u64,
    pub rdx: u64,
    pub rsi: u64,
    pub rdi: u64,
    pub rbp: u64,
    pub rsp: u64,
    pub r8: u64,
    pub r9: u64,
    pub r10: u64,
    pub r11: u64,
    pub r12: u64,
    pub r13: u64,
    pub r14: u64,
    pub r15: u64,
    pub rip: u64,
    pub rflags: u64,
}

impl CpuContext {
    /// All registers zero.
    pub fn new() -> (r: Self)
        ensures
            r == cpu_context_zero(),
    {
        CpuContext {
            rax: 0, rbx: 0, rcx: 0, rdx: 0, rsi: 0, rdi: 0, rbp: 0, rsp: 0, r8: 0, r9: 0,
            r10: 0, r11: 0, r12: 0, r13: 0, r14: 0, r15: 0, rip: 0, rflags: 0,
        }
    }
}

pub open spec fn cpu_context_zero() -> CpuContext {
    CpuContext {
        rax: 0, rbx: 0, rcx: 0, rdx: 0, rsi: 0, rdi: 0, rbp: 0, rsp: 0, r8: 0, r9: 0,
        r10: 0, r11: 0, r12: 0, r13: 0, r14: 0, r15: 0, rip: 0, rflags: 0,
    }
}

/// The 512-byte FXSAVE image of a process's x87/SSE state.
pub struct FpuState {
    pub bytes: [u8; 512],
}

impl FpuState {
    /// The FINIT defaults: control word 0x037f and MXCSR 0x1f80, everything
    /// else clear.
    pub fn new() -> (r: Self)
        ensures
            r.bytes@.len() == 512,
            r.bytes@[0] == 0x7f,
            r.bytes@[1] == 0x03,
            r.bytes@[24] == 0x80,
            r.bytes@[25] == 0x1f,
            forall|i: int| 0 <= i < 512 && i != 0 && i != 1 && i != 24 && i != 25 ==> r.bytes@[i] == 0,
    {
        let mut bytes = [0u8; 512];
        bytes[0] = 0x7f;
        bytes[1] = 0x03;
        bytes[24] = 0x80;
        bytes[25] = 0x1f;
        FpuState { bytes }
    }
}

#[derive(Debug, Clone, Copy, PartialEq, Eq, Structural)]
pub enum ProcessError {
    NoCurrentProcess,
    NoSuchProcess,
    NotChild,
    InvalidFd,
    FdTableFull,
    NoAddressSpace,
    AddressSpaceCreateFailed,
    NoKernelStack,
    InvalidUserContext,
    ProcessNotPrepared,
    ProcessAlreadyExists,
    NotRunnable,
    SchedulerUnavailable,
    InvalidMemoryRange,
    AddressInUse,
    OutOfMemory,
}

#[derive(Debug, Clone, Copy, PartialEq, Eq, Structural)]
pub enum ProcessFault {
    PageFault,
    GeneralProtection,
    InvalidOpcode,
    DivideByZero,
    Unknown,
}

impl ProcessFault {
    /// The negative exit code reported for the fault.
    pub fn exit_code(self) -> (r: i32)
        ensures
            r == fault_exit_code(self),
    {
        match self {
            ProcessFault::PageFault => -14,
            ProcessFault::GeneralProtection => -11,
            ProcessFault::InvalidOpcode => -4,
            ProcessFault::DivideByZero => -8,
            ProcessFault::Unknown => -1,
        }
    }

    /// A short human-readable description.
    pub fn reason(self) -> (r: &'static str)
        ensures
            r@ == fault_reason(self)@,
    {
        match self {
            ProcessFault::PageFault => "page fault",
            ProcessFault::GeneralProtection => "general protection fault",
            ProcessFault::InvalidOpcode => "invalid opcode",
            ProcessFault::DivideByZero => "divide by zero",
            ProcessFault::Unknown => "user fault",
        }
    }
}

pub open spec fn fault_exit_code(f: ProcessFault) -> i32 {
    match f {
        ProcessFault::PageFault => -14i32,
        ProcessFault::GeneralProtection => -11i32,
        ProcessFault::InvalidOpcode => -4i32,
        ProcessFault::DivideByZero => -8i32,
        ProcessFault::Unknown => -1i32,
    }
}

pub open spec fn fault_reason(f: ProcessFault) -> &'static str {
    match f {
        ProcessFault::PageFault => "page fault",
        ProcessFault::GeneralProtection => "general protection fault",
        ProcessFault::InvalidOpcode => "invalid opcode",
        ProcessFault::DivideByZero => "divide by zero",
        ProcessFault::Unknown => "user fault",
    }
}

/// Numeric kind of a fault (1..=5); 0 stands for a normal exit.
pub open spec fn fault_kind(f: ProcessFault) -> i32 {
    match f {
        ProcessFault::PageFault => 1,
        ProcessFault::GeneralProtection => 2,
        ProcessFault::InvalidOpcode => 3,
        ProcessFault::DivideByZero => 4,
        ProcessFault::Unknown => 5,
    }
}

pub fn fault_kind_to_i32(fault: ProcessFault) -> (r: i32)
    ensures
        r == fault_kind(fault),
{
    match fault {
        ProcessFault::PageFault => 1,
        ProcessFault::GeneralProtection => 2,
        ProcessFault::InvalidOpcode => 3,
        ProcessFault::DivideByZero => 4,
        ProcessFault::Unknown => 5,
    }
}

/// The fault of kind `value`; an unknown kind is `Unknown`.
/// The fault a fault-kind number stands for; unknown numbers are unknown
/// faults.
pub open spec fn fault_of_kind(value: i32) -> ProcessFault {
    if value == 1 {
        ProcessFault::PageFault
    } else if value == 2 {
        ProcessFault::GeneralProtection
    } else if value == 3 {
        ProcessFault::InvalidOpcode
    } else if value == 4 {
        ProcessFault::DivideByZero
    } else {
        ProcessFault::Unknown
    }
}

pub fn fault_kind_from_i32(value: i32) -> (r: ProcessFault)
    ensures
        r == fault_of_kind(value),
        1 <= value <= 5 ==> fault_kind(r) == value,
        !(1 <= value <= 5) ==> r == ProcessFault::Unknown,
{
    match value {
        1 => ProcessFault::PageFault,
        2 => ProcessFault::GeneralProtection,
        3 => ProcessFault::InvalidOpcode,
        4 => ProcessFault::DivideByZero,
        _ => ProcessFault::Unknown,
    }
}

/// Decoding a fault kind gives the fault back.
pub proof fn law_fault_kind_round_trip(f: ProcessFault)
    ensures
        1 <= fault_kind(f) <= 5,
        fault_kind(f) != 0,
{
}

#[derive(Debug, Clone, Copy, PartialEq, Eq, Structural)]
pub enum ProcessExitStatus {
    Exited(i32),
    Fault(ProcessFault),
}

pub open spec fn status_exit_code(s: ProcessExitStatus) -> i32 {
    match s {
        ProcessExitStatus::Exited(code) => code,
        ProcessExitStatus::Fault(f) => fault_exit_code(f),
    }
}

pub open spec fn status_kind_code(s: ProcessExitStatus) -> i32 {
    match s {
        ProcessExitStatus::Exited(_) => 0,
        ProcessExitStatus::Fault(f) => fault_kind(f),
    }
}

impl ProcessExitStatus {
    pub fn exit_code(self) -> (r: i32)
        ensures
            r == status_exit_code(self),
    {
        match self {
            ProcessExitStatus::Exited(code) => code,
            ProcessExitStatus::Fault(fault) => fault.exit_code(),
        }
    }

    pub fn kind_code(self) -> (r: i32)
        ensures
            r == status_kind_code(self),
    {
        match self {
            ProcessExitStatus::Exited(_) => 0,
            ProcessExitStatus::Fault(fault) => fault_kind_to_i32(fault),
        }
    }
}

#[derive(Debug, Clone, Copy, PartialEq, Eq, Structural)]
pub struct ProcessExit {
    pub pid: ProcessId,
    pub status: ProcessExitStatus,
}

#[derive(Debug, Clone, Copy, PartialEq, Eq, Structural)]
pub enum FdTarget {
    Stdin,
    Stdout,
    Stderr,
    Vfs(FileDescriptor),
}

/// Where the output of the foreground process tree goes.
#[derive(Debug, Clone, Copy, PartialEq, Eq, Structural)]
pub enum ProcessOutputSink {
    SerialOnly,
    Terminal,
    GuiTerminal,
}

pub open spec fn sink_code(s: ProcessOutputSink) -> u64 {
    match s {
        ProcessOutputSink::SerialOnly => 0,
        ProcessOutputSink::Terminal => 1,
        ProcessOutputSink::GuiTerminal => 2,
    }
}

impl ProcessOutputSink {
    pub fn as_u64(self) -> (r: u64)
        ensures
            r == sink_code(self),
    {
        match self {
            ProcessOutputSink::SerialOnly => 0,
            ProcessOutputSink::Terminal => 1,
            ProcessOutputSink::GuiTerminal => 2,
        }
    }

    /// The sink with code `value`; unknown codes mean serial only.
    pub fn from_u64(value: u64) -> (r: Self)
        ensures
            value <= 2 ==> sink_code(r) == value,
            value > 2 ==> r == ProcessOutputSink::SerialOnly,
    {
        if value == 1 {
            ProcessOutputSink::Terminal
        } else if value == 2 {
            ProcessOutputSink::GuiTerminal
        } else {
            ProcessOutputSink::SerialOnly
        }
    }
}

#[derive(Debug, Clone, Copy, PartialEq, Eq, Structural)]
pub struct FdEntry {
    pub target: FdTarget,
}

impl FdEntry {
    pub fn stdin() -> (r: Self)
        ensures
            r.target == FdTarget::Stdin,
    {
        FdEntry { target: FdTarget::Stdin }
    }

    pub fn stdout() -> (r: Self)
        ensures
            r.target == FdTarget::Stdout,
    {
        FdEntry { target: FdTarget::Stdout }
    }

    pub fn stderr() -> (r: Self)
        ensures
            r.target == FdTarget::Stderr,
    {
        FdEntry { target: FdTarget::Stderr }
    }

    pub fn vfs(fd: FileDescriptor) -> (r: Self)
        ensures
            r.target == FdTarget::Vfs(fd),
    {
        FdEntry { target: FdTarget::Vfs(fd) }
    }
}

/// Slot `k` steps after `start` in the cyclic scan of `[FIRST_PROCESS_FD,
/// MAX_PROCESS_FD)`.
pub open spec fn fd_cycle(start: int, k: int) -> int {
    FIRST_PROCESS_FD + (start - FIRST_PROCESS_FD + k) % ((MAX_PROCESS_FD - FIRST_PROCESS_FD) as int)
}

/// A process (or a thread entity): registers, FPU image, descriptor table,
/// capability table, address space and the bookkeeping of its mappings.
/// `kernel_stack_top` is the 16-byte aligned top offset inside the kernel
/// stack buffer.
pub struct Process {
    pub pid: ProcessId,
    pub state: ProcessState,
    pub context: CpuContext,
    pub fpu_state: FpuState,
    pub fs_base: u64,
    pub is_kernel: bool,
    pub cwd: String,
    pub status: Option<ProcessExitStatus>,
    pub address_space: Option<AddressSpace>,
    pub kernel_stack: Option<Vec<u8>>,
    pub kernel_stack_top: usize,
    pub entry_argc: usize,
    pub entry_argv: usize,
    pub entry_envp: usize,
    pub fd_table: Vec<(ProcessFd, FdEntry)>,
    pub next_fd: ProcessFd,
    pub next_mmap_addr: usize,
    pub shared_owned: Vec<u64>,
    pub shared_pages: Vec<(usize, u64)>,
    pub guard_regions: Vec<(usize, usize)>,
    pub tls_image: Vec<u8>,
    pub tls_mem_size: usize,
    pub tls_align: usize,
    pub tls_allocation: Option<(usize, usize)>,
    pub handle_table: HandleTable,
    pub pending_signals: u64,
}

impl Process {
    /// Descriptor table.
    pub closed spec fn fds(&self) -> Map<ProcessFd, FdEntry> {
        to_map(self.fd_table@)
    }

    /// Capability table.
    pub closed spec fn handles(&self) -> Map<Handle, HandleEntry> {
        self.handle_table@
    }

    pub closed spec fn handle_count(&self) -> nat {
        self.handle_table.spec_len()
    }

    pub closed spec fn spec_next_fd(&self) -> ProcessFd {
        self.next_fd
    }

    pub closed spec fn spec_pending_signals(&self) -> u64 {
        self.pending_signals
    }

    pub closed spec fn spec_has_address_space(&self) -> bool {
        self.address_space is Some
    }

    pub closed spec fn spec_address_space(&self) -> AddressSpace {
        self.address_space.unwrap()
    }

    pub closed spec fn spec_has_kernel_stack(&self) -> bool {
        self.kernel_stack is Some && self.kernel_stack_top != 0
    }

    pub closed spec fn wf(&self) -> bool {
        &&& keys_unique(self.fd_table@)
        &&& FIRST_PROCESS_FD <= self.next_fd < MAX_PROCESS_FD
        &&& self.next_mmap_addr % 4096 == 0
        &&& crate::process::vm::guards_wf(self.guard_regions@)
        &&& self.handle_table.wf()
        &&& (self.address_space matches Some(a) ==> a.wf())
    }

    pub proof fn lemma_wf(&self)
        requires
            self.wf(),
        ensures
            FIRST_PROCESS_FD <= self.spec_next_fd() < MAX_PROCESS_FD,
            self.spec_has_address_space() ==> self.spec_address_space().wf(),
            self.next_mmap_addr % 4096 == 0,
            forall|h: Handle| #[trigger] self.handles().contains_key(h) ==> self.handles()[h].rights & RIGHTS_ALL == self.handles()[h].rights,
    {
        self.handle_table.lemma_wf();
    }

    /// A change of run state leaves the address space and kernel stack alone.
    pub proof fn lemma_with_state(&self, s: ProcessState)
        ensures
            (Process { state: s, ..*self }).spec_has_address_space() == self.spec_has_address_space(),
            (Process { state: s, ..*self }).spec_has_kernel_stack() == self.spec_has_kernel_stack(),
    {
    }

    fn new_without_address_space(pid: ProcessId, is_kernel: bool) -> (r: Self)
        ensures
            r.wf(),
            r.pid == pid,
            r.is_kernel == is_kernel,
            r.state == ProcessState::Ready,
            r.status is None,
            r.context == cpu_context_zero(),
            r.fs_base == 0,
            r.cwd@ == "/"@,
            !r.spec_has_address_space(),
            !r.spec_has_kernel_stack(),
            r.fds() == stdio_fds(),
            r.spec_next_fd() == FIRST_PROCESS_FD,
            r.handles() == Map::<Handle, HandleEntry>::empty(),
            r.handle_count() == 0,
            r.spec_pending_signals() == 0,
    {
        let mut process = Process {
            pid,
            state: ProcessState::Ready,
            context: CpuContext::new(),
            fpu_state: FpuState::new(),
            fs_base: 0,
            is_kernel,
            cwd: "/".to_owned(),
            status: None,
            address_space: None,
            kernel_stack: None,
            kernel_stack_top: 0,
            entry_argc: 0,
            entry_argv: 0,
            entry_envp: 0,
            fd_table: Vec::new(),
            next_fd: FIRST_PROCESS_FD,
            next_mmap_addr: vm::USER_MMAP_BASE,
            shared_owned: Vec::new(),
            shared_pages: Vec::new(),
            guard_regions: Vec::new(),
            tls_image: Vec::new(),
            tls_mem_size: 0,
            tls_align: 1,
            tls_allocation: None,
            handle_table: HandleTable::new(),
            pending_signals: 0,
        };
        process.reserve_stdio();
        process
    }

    /// A kernel process: no address space, no kernel stack of its own.
    pub fn new_kernel(pid: ProcessId) -> (r: Self)
        ensures
            r.wf(),
            r.pid == pid,
            r.is_kernel,
            r.state == ProcessState::Ready,
            r.status is None,
            !r.spec_has_address_space(),
            r.fds() == stdio_fds(),
            r.spec_next_fd() == FIRST_PROCESS_FD,
            r.handles() == Map::<Handle, HandleEntry>::empty(),
            r.spec_pending_signals() == 0,
    {
        Self::new_without_address_space(pid, true)
    }

    /// An isolated user process with a fresh address space and kernel stack;
    /// fails when no frame is left for the root table.
    pub fn new_user(pid: ProcessId, pmm: &mut PhysicalMemoryManager) -> (r: Result<Self, ProcessError>)
        requires
            old(pmm).wf(),
        ensures
            final(pmm).wf(),
            final(pmm).spec_base() == old(pmm).spec_base(),
            final(pmm).spec_total_frames() == old(pmm).spec_total_frames(),
            r is Ok <==> old(pmm).spec_free_frames() > 0,
            r is Err ==> r == Err::<Self, ProcessError>(ProcessError::AddressSpaceCreateFailed),
            r matches Ok(p) ==> {
                &&& p.wf()
                &&& p.pid == pid
                &&& !p.is_kernel
                &&& p.state == ProcessState::Ready
                &&& p.status is None
                &&& p.spec_has_address_space()
                &&& p.spec_address_space()@ == Map::<usize, (crate::memory::pmm::PhysicalAddress, crate::memory::vmm::PageFlags)>::empty()
                &&& p.spec_has_kernel_stack()
                &&& p.kernel_stack_top == DEFAULT_KERNEL_STACK_SIZE
                &&& p.fds() == stdio_fds()
                &&& p.spec_next_fd() == FIRST_PROCESS_FD
                &&& p.handles() == Map::<Handle, HandleEntry>::empty()
                &&& p.spec_pending_signals() == 0
                &&& final(pmm).spec_free_frames() + 1 == old(pmm).spec_free_frames()
            },
    {
        let address_space = match AddressSpace::new(pmm) {
            Ok(a) => a,
            Err(_) => return Err(ProcessError::AddressSpaceCreateFailed),
        };
        let kernel_stack = vec![0u8; DEFAULT_KERNEL_STACK_SIZE];
        let kernel_stack_top = kernel_stack.len() & !0xF;
        assert(0x40000usize & !0xFusize == 0x40000usize) by (bit_vector);
        let mut process = Self::new_without_address_space(pid, false);
        process.address_space = Some(address_space);
        process.kernel_stack = Some(kernel_stack);
        process.kernel_stack_top = kernel_stack_top;
        Ok(process)
    }

    /// Same as `new_user`.
    pub fn new(pid: ProcessId, pmm: &mut PhysicalMemoryManager) -> (r: Result<Self, ProcessError>)
        requires
            old(pmm).wf(),
        ensures
            final(pmm).wf(),
            final(pmm).spec_base() == old(pmm).spec_base(),
            final(pmm).spec_total_frames() == old(pmm).spec_total_frames(),
            r is Ok <==> old(pmm).spec_free_frames() > 0,
            r matches Ok(p) ==> p.wf() && p.pid == pid && !p.is_kernel && p.spec_has_address_space()
                && p.fds() == stdio_fds(),
    {
        Self::new_user(pid, pmm)
    }

    /// A thread entity of `tid` that starts at `entry` with stack `stack_top`
    /// and first argument `arg`; it owns a kernel stack but shares its
    /// owner's address space and descriptors.
    pub(crate) fn new_user_thread(tid: ThreadId, entry: u64, stack_top: u64, arg: u64) -> (r: Self)
        ensures
            r.wf(),
            r.pid == ProcessId(tid.0),
            !r.is_kernel,
            r.state == ProcessState::Ready,
            r.context.rip == entry,
            r.context.rsp == stack_top,
            r.context.rdi == arg,
            r.context.rflags == 0x202,
            !r.spec_has_address_space(),
            r.spec_has_kernel_stack(),
            r.fds() == Map::<ProcessFd, FdEntry>::empty(),
    {
        let mut thread = Self::new_without_address_space(ProcessId(tid.0), false);
        let kernel_stack = vec![0u8; DEFAULT_KERNEL_STACK_SIZE];
        assert(0x40000usize & !0xFusize == 0x40000usize) by (bit_vector);
        thread.kernel_stack_top = kernel_stack.len() & !0xF;
        thread.kernel_stack = Some(kernel_stack);
        thread.fd_table = Vec::new();
        thread.context.rip = entry;
        thread.context.rsp = stack_top;
        thread.context.rdi = arg;
        thread.context.rflags = 0x202;
        proof {
            assert(thread.fds() =~= Map::<ProcessFd, FdEntry>::empty());
        }
        thread
    }

    /// Lends the address space out (the process holds none until it is
    /// given back).
    pub fn take_address_space(&mut self) -> (r: Option<AddressSpace>)
        requires
            old(self).wf(),
        ensures
            final(self).wf(),
            r == old(self).address_space,
            r matches Some(a) ==> a.wf(),
            *final(self) == (Process { address_space: None, ..*old(self) }),
    {
        self.address_space.take()
    }

    /// Gives the process the address space `a`.
    pub fn restore_address_space(&mut self, a: AddressSpace)
        requires
            old(self).wf(),
            a.wf(),
        ensures
            final(self).wf(),
            *final(self) == (Process { address_space: Some(a), ..*old(self) }),
    {
        self.address_space = Some(a);
    }

    /// Sets the registers and entry values of a freshly loaded image: start
    /// at `rip` with stack `rsp`, interrupts enabled, `(argc, argv, envp)`
    /// in `rdi`, `rsi`, `rdx`; the process becomes ready.
    pub fn set_entry_state(&mut self, rip: u64, rsp: u64, argc: usize, argv: u64, envp: u64)
        requires
            old(self).wf(),
        ensures
            final(self).wf(),
            *final(self) == (Process {
                context: CpuContext { rip, rsp, rflags: 0x202, rdi: argc as u64, rsi: argv, rdx: envp, ..old(self).context },
                entry_argc: argc,
                entry_argv: argv as usize,
                entry_envp: envp as usize,
                state: ProcessState::Ready,
                ..*old(self)
            }),
    {
        self.context.rip = rip;
        self.context.rsp = rsp;
        self.context.rflags = 0x202;
        self.context.rdi = argc as u64;
        self.context.rsi = argv;
        self.context.rdx = envp;
        self.entry_argc = argc;
        self.entry_argv = argv as usize;
        self.entry_envp = envp as usize;
        self.state = ProcessState::Ready;
    }

    pub fn address_space(&self) -> (r: Option<&AddressSpace>)
        ensures
            self.spec_has_address_space() ==> r == Some(&self.spec_address_space()),
            !self.spec_has_address_space() ==> r is None,
    {
        match &self.address_space {
            Some(a) => Some(a),
            None => None,
        }
    }

    pub fn has_kernel_stack(&self) -> (r: bool)
        ensures
            r == self.spec_has_kernel_stack(),
    {
        self.kernel_stack.is_some() && self.kernel_stack_top != 0
    }

    pub fn kernel_stack_top(&self) -> (r: Option<usize>)
        ensures
            self.spec_has_kernel_stack() ==> r == Some(self.kernel_stack_top),
            !self.spec_has_kernel_stack() ==> r is None,
    {
        if self.has_kernel_stack() {
            Some(self.kernel_stack_top)
        } else {
            None
        }
    }

    /// Marks the process dead.
    pub fn terminate(&mut self)
        ensures
            *final(self) == (Process { state: ProcessState::Dead, ..*old(self) }),
    {
        self.state = ProcessState::Dead;
    }

    /// Records a normal exit with `code` and marks the process dead.
    pub fn exit(&mut self, code: i32)
        ensures
            *final(self) == (Process { state: ProcessState::Dead, status: Some(ProcessExitStatus::Exited(code)), ..*old(self) }),
    {
        self.status = Some(ProcessExitStatus::Exited(code));
        self.terminate();
    }

    /// Records `fault` and marks the process dead.
    pub fn fault(&mut self, fault: ProcessFault)
        ensures
            *final(self) == (Process { state: ProcessState::Dead, status: Some(ProcessExitStatus::Fault(fault)), ..*old(self) }),
    {
        self.status = Some(ProcessExitStatus::Fault(fault));
        self.terminate();
    }

    fn find_fd(&self, fd: ProcessFd) -> (r: Option<usize>)
        requires
            keys_unique(self.fd_table@),
        ensures
            r matches Some(i) ==> i < self.fd_table@.len() && self.fd_table@[i as int].0 == fd
                && self.fds().contains_key(fd) && self.fds()[fd] == self.fd_table@[i as int].1,
            r is None <==> !self.fds().contains_key(fd),
    {
        let mut i: usize = 0;
        while i < self.fd_table.len()
            invariant
                i <= self.fd_table@.len(),
                keys_unique(self.fd_table@),
                forall|j: int| 0 <= j < i ==> self.fd_table@[j].0 != fd,
            decreases self.fd_table@.len() - i,
        {
            if self.fd_table[i].0 == fd {
                proof {
                    lemma_lookup_at(self.fd_table@, i as int);
                }
                return Some(i);
            }
            i = i + 1;
        }
        proof {
            lemma_lookup_none(self.fd_table@, fd);
        }
        None
    }

    fn insert_fd(&mut self, fd: ProcessFd, entry: FdEntry)
        requires
            keys_unique(old(self).fd_table@),
            !old(self).fds().contains_key(fd),
        ensures
            keys_unique(final(self).fd_table@),
            final(self).fds() == old(self).fds().insert(fd, entry),
            *final(self) == (Process { fd_table: final(self).fd_table, ..*old(self) }),
    {
        proof {
            lemma_push(self.fd_table@, fd, entry);
        }
        self.fd_table.push((fd, entry));
        proof {
            assert(self.fds() =~= old(self).fds().insert(fd, entry));
        }
    }

    fn reserve_stdio(&mut self)
        requires
            old(self).fd_table@.len() == 0,
        ensures
            keys_unique(final(self).fd_table@),
            final(self).fds() == stdio_fds(),
            *final(self) == (Process { fd_table: final(self).fd_table, ..*old(self) }),
    {
        proof {
            assert(self.fds() =~= Map::<ProcessFd, FdEntry>::empty());
        }
        self.insert_fd(0, FdEntry::stdin());
        self.insert_fd(1, FdEntry::stdout());
        self.insert_fd(2, FdEntry::stderr());
        proof {
            assert(self.fds() =~= stdio_fds());
        }
    }

    /// Installs `entry` at the first free descriptor in cyclic order from the
    /// rotating cursor over `[FIRST_PROCESS_FD, MAX_PROCESS_FD)`, advancing
    /// the cursor past it; `FdTableFull` when every slot there is taken.
    pub fn allocate_fd(&mut self, entry: FdEntry) -> (r: Result<ProcessFd, ProcessError>)
        requires
            old(self).wf(),
        ensures
            final(self).wf(),
            r matches Ok(fd) ==> {
                &&& exists|k: int| 0 <= k < MAX_PROCESS_FD - FIRST_PROCESS_FD
                    && fd == #[trigger] fd_cycle(old(self).spec_next_fd() as int, k)
                    && final(self).spec_next_fd() == fd_cycle(old(self).spec_next_fd() as int, k + 1)
                    && forall|j: int| 0 <= j < k ==> #[trigger] old(self).fds().contains_key(fd_cycle(old(self).spec_next_fd() as int, j) as ProcessFd)
                &&& FIRST_PROCESS_FD <= fd < MAX_PROCESS_FD
                &&& !old(self).fds().contains_key(fd)
                &&& final(self).fds() == old(self).fds().insert(fd, entry)
            },
            r is Err ==> r == Err::<ProcessFd, ProcessError>(ProcessError::FdTableFull)
                && final(self).fds() == old(self).fds()
                && forall|fd: ProcessFd| FIRST_PROCESS_FD <= fd < MAX_PROCESS_FD ==> #[trigger] old(self).fds().contains_key(fd),
            *final(self) == (Process { fd_table: final(self).fd_table, next_fd: final(self).next_fd, ..*old(self) }),
    {
        let ghost start = self.next_fd as int;
        let mut k: u32 = 0;
        while k < MAX_PROCESS_FD - FIRST_PROCESS_FD
            invariant
                *self == (Process { next_fd: self.next_fd, ..*old(self) }),
                old(self).wf(),
                FIRST_PROCESS_FD <= self.next_fd < MAX_PROCESS_FD,
                start == old(self).next_fd,
                FIRST_PROCESS_FD <= start < MAX_PROCESS_FD,
                k <= MAX_PROCESS_FD - FIRST_PROCESS_FD,
                self.next_fd == fd_cycle(start, k as int),
                keys_unique(self.fd_table@),
                forall|j: int| 0 <= j < k ==> #[trigger] old(self).fds().contains_key(fd_cycle(start, j) as ProcessFd),
            decreases MAX_PROCESS_FD - FIRST_PROCESS_FD - k,
        {
            let fd = self.next_fd;
            self.next_fd = self.next_fd + 1;
            if self.next_fd >= MAX_PROCESS_FD {
                self.next_fd = FIRST_PROCESS_FD;
            }
            proof {
                lemma_fd_cycle_step(start, k as int);
            }
            if self.find_fd(fd).is_none() {
                self.insert_fd(fd, entry);
                proof {
                    let kk = k as int;
                    assert(fd == fd_cycle(start, kk));
                    assert(self.spec_next_fd() == fd_cycle(start, kk + 1));
                    assert(forall|j: int| 0 <= j < kk ==> #[trigger] old(self).fds().contains_key(fd_cycle(old(self).spec_next_fd() as int, j) as ProcessFd));
                    assert(0 <= kk < MAX_PROCESS_FD - FIRST_PROCESS_FD);
                }
                return Ok(fd);
            }
            k = k + 1;
        }
        proof {
            assert forall|fd: ProcessFd| FIRST_PROCESS_FD <= fd < MAX_PROCESS_FD implies #[trigger] old(self).fds().contains_key(fd) by {
                let j = (fd - start + (MAX_PROCESS_FD - FIRST_PROCESS_FD)) % ((MAX_PROCESS_FD - FIRST_PROCESS_FD) as int);
                assert(fd_cycle(start, j) == fd);
                assert(old(self).fds().contains_key(fd_cycle(start, j) as ProcessFd));
            }
        }
        Err(ProcessError::FdTableFull)
    }

    pub fn get_fd(&self, fd: ProcessFd) -> (r: Option<&FdEntry>)
        requires
            self.wf(),
        ensures
            self.fds().contains_key(fd) ==> r == Some(&self.fds()[fd]),
            !self.fds().contains_key(fd) ==> r is None,
    {
        match self.find_fd(fd) {
            Some(i) => Some(&self.fd_table[i].1),
            None => None,
        }
    }

    /// Removes descriptor `fd` and returns its entry.
    pub fn close_fd(&mut self, fd: ProcessFd) -> (r: Result<FdEntry, ProcessError>)
        requires
            old(self).wf(),
        ensures
            final(self).wf(),
            old(self).fds().contains_key(fd) ==> r == Ok::<FdEntry, ProcessError>(old(self).fds()[fd])
                && final(self).fds() == old(self).fds().remove(fd),
            !old(self).fds().contains_key(fd) ==> r == Err::<FdEntry, ProcessError>(ProcessError::InvalidFd)
                && final(self).fds() == old(self).fds(),
            *final(self) == (Process { fd_table: final(self).fd_table, ..*old(self) }),
    {
        match self.find_fd(fd) {
            Some(i) => {
                proof {
                    lemma_remove(self.fd_table@, i as int);
                }
                let (_, entry) = self.fd_table.remove(i);
                proof {
                    assert(self.fds() =~= old(self).fds().remove(fd));
                }
                Ok(entry)
            },
            None => Err(ProcessError::InvalidFd),
        }
    }

    pub fn fd_count(&self) -> (r: usize)
        requires
            self.wf(),
        ensures
            r == self.fds().dom().len(),
    {
        proof {
            lemma_fd_dom_len(self.fd_table@);
        }
        self.fd_table.len()
    }

    /// Takes the whole descriptor table out, leaving it empty.
    pub(crate) fn take_fds(&mut self) -> (r: Vec<(ProcessFd, FdEntry)>)
        requires
            old(self).wf(),
        ensures
            final(self).wf(),
            to_map(r@) == old(self).fds(),
            r@ == old(self).fd_table@,
            keys_unique(r@),
            final(self).fds() == Map::<ProcessFd, FdEntry>::empty(),
            *final(self) == (Process { fd_table: final(self).fd_table, ..*old(self) }),
    {
        let mut taken: Vec<(ProcessFd, FdEntry)> = Vec::new();
        core::mem::swap(&mut taken, &mut self.fd_table);
        proof {
            assert(self.fds() =~= Map::<ProcessFd, FdEntry>::empty());
        }
        taken
    }
}

proof fn lemma_fd_cycle_step(start: int, k: int)
    requires
        FIRST_PROCESS_FD <= start < MAX_PROCESS_FD,
        0 <= k,
    ensures
        FIRST_PROCESS_FD <= fd_cycle(start, k) < MAX_PROCESS_FD,
        fd_cycle(start, k + 1) == if fd_cycle(start, k) + 1 >= MAX_PROCESS_FD { FIRST_PROCESS_FD as int } else { fd_cycle(start, k) + 1 },
{
    let a = start - 3 + k;
    assert(a >= 0);
    assert((a + 1) % 1021 == if a % 1021 + 1 == 1021 { 0 } else { a % 1021 + 1 }) by (nonlinear_arith)
        requires a >= 0;
}

impl Process {
    /// A zeroed memory object of `len` bytes with READ, WRITE, MAP and
    /// TRANSFER rights.
    pub fn handle_create_memory(&mut self, len: usize) -> (r: Result<Handle, HandleError>)
        requires
            old(self).wf(),
            old(self).handle_count() < u32::MAX,
        ensures
            final(self).wf(),
            len == 0 || len > MAX_MEMORY_OBJECT ==> r == Err::<Handle, HandleError>(HandleError::TooLarge)
                && final(self).handles() == old(self).handles(),
            0 < len <= MAX_MEMORY_OBJECT ==> (r matches Ok(h) && !old(self).handles().contains_key(h)
                && final(self).handles().dom() == old(self).handles().dom().insert(h)
                && final(self).handles()[h].rights == RIGHT_READ | RIGHT_WRITE | RIGHT_MAP | RIGHT_TRANSFER
                && final(self).handles()[h].object is Memory
                && final(self).handles()[h].object->Memory_0@ == Seq::new(len as nat, |i: int| 0u8)
                && forall|k: Handle| k != h && #[trigger] old(self).handles().contains_key(k) ==> final(self).handles()[k] == old(self).handles()[k]),
            *final(self) == (Process { handle_table: final(self).handle_table, ..*old(self) }),
    {
        if len == 0 || len > MAX_MEMORY_OBJECT {
            return Err(HandleError::TooLarge);
        }
        let data = vec![0u8; len];
        let rights = RIGHT_READ | RIGHT_WRITE | RIGHT_MAP | RIGHT_TRANSFER;
        let h = self.handle_table.insert(HandleObject::Memory(data), rights);
        proof {
            assert(rights & RIGHTS_ALL == rights) by (bit_vector)
                requires rights == 1u32 | 2u32 | 4u32 | 16u32;
            assert(data@ =~= Seq::new(len as nat, |i: int| 0u8));
            assert(self.handles().dom() =~= old(self).handles().dom().insert(h));
        }
        Ok(h)
    }

    /// An endpoint that signals `target`, with SIGNAL and TRANSFER rights.
    pub fn handle_create_endpoint(&mut self, target: ProcessId) -> (h: Handle)
        requires
            old(self).wf(),
            old(self).handle_count() < u32::MAX,
        ensures
            final(self).wf(),
            !old(self).handles().contains_key(h),
            final(self).handles() == old(self).handles().insert(h,
                HandleEntry { object: HandleObject::Endpoint(target), rights: RIGHT_SIGNAL | RIGHT_TRANSFER }),
            *final(self) == (Process { handle_table: final(self).handle_table, ..*old(self) }),
    {
        let rights = RIGHT_SIGNAL | RIGHT_TRANSFER;
        proof {
            assert(rights & RIGHTS_ALL == rights) by (bit_vector)
                requires rights == 8u32 | 16u32;
        }
        self.handle_table.insert(HandleObject::Endpoint(target), rights)
    }

    pub fn handle_rights(&self, handle: Handle) -> (r: Result<u32, HandleError>)
        requires
            self.wf(),
        ensures
            self.handles().contains_key(handle) ==> r == Ok::<u32, HandleError>(self.handles()[handle].rights),
            !self.handles().contains_key(handle) ==> r == Err::<u32, HandleError>(HandleError::BadHandle),
    {
        self.handle_table.rights(handle)
    }

    /// Duplicates `handle` with narrowed rights. Display and input handles
    /// cannot be duplicated; a duplicate of a shared buffer holds one more
    /// reference to it.
    pub fn handle_dup(&mut self, handle: Handle, new_rights: u32, registry: &mut SharedVmRegistry) -> (r: Result<Handle, HandleError>)
        requires
            old(self).wf(),
            old(self).handle_count() < u32::MAX,
            old(registry).wf(),
        ensures
            final(self).wf(),
            final(registry).wf(),
            !old(self).handles().contains_key(handle) ==> r == Err::<Handle, HandleError>(HandleError::BadHandle),
            old(self).handles().contains_key(handle) && (old(self).handles()[handle].object is Display
                || old(self).handles()[handle].object is Input) ==> r == Err::<Handle, HandleError>(HandleError::WrongType),
            old(self).handles().contains_key(handle) && !(old(self).handles()[handle].object is Display
                || old(self).handles()[handle].object is Input) ==> {
                &&& (new_rights & RIGHTS_ALL) & !old(self).handles()[handle].rights != 0 ==>
                    r == Err::<Handle, HandleError>(HandleError::AccessDenied)
                &&& (new_rights & RIGHTS_ALL) & !old(self).handles()[handle].rights == 0 ==> r is Ok
            },
            r is Err ==> final(self).handles() == old(self).handles() && final(registry)@ == old(registry)@,
            r matches Ok(h) ==> {
                &&& !old(self).handles().contains_key(h)
                &&& final(self).handles().dom() == old(self).handles().dom().insert(h)
                &&& forall|k: Handle| k != h && old(self).handles().contains_key(k) ==> #[trigger] final(self).handles()[k] == old(self).handles()[k]
                &&& final(self).handles()[h].rights == new_rights & RIGHTS_ALL
                &&& has_rights(old(self).handles()[handle].rights, final(self).handles()[h].rights)
                &&& same_object(final(self).handles()[h].object, old(self).handles()[handle].object)
                &&& (old(self).handles()[handle].object matches HandleObject::SharedFrames { id } ==>
                    final(registry)@.dom() == old(registry)@.dom()
                    && (old(registry)@.contains_key(id) ==> final(registry)@[id].refs ==
                        (if old(registry)@[id].refs + 1 > usize::MAX { usize::MAX as int } else { old(registry)@[id].refs + 1 })))
                &&& (!(old(self).handles()[handle].object is SharedFrames) ==> final(registry)@ == old(registry)@)
            },
            *final(self) == (Process { handle_table: final(self).handle_table, ..*old(self) }),
    {
        match self.handle_table.get(handle) {
            Ok(entry) => {
                match &entry.object {
                    HandleObject::Display => return Err(HandleError::WrongType),
                    HandleObject::Input => return Err(HandleError::WrongType),
                    _ => {},
                }
            },
            Err(e) => return Err(e),
        }
        let shared = match &self.handle_table.get(handle) {
            Ok(entry) => match &entry.object {
                HandleObject::SharedFrames { id } => Some(*id),
                _ => None,
            },
            Err(_) => None,
        };
        let new = match self.handle_table.duplicate(handle, new_rights) {
            Ok(h) => h,
            Err(e) => return Err(e),
        };
        proof {
            crate::handle::law_duplicate_narrows(old(self).handles()[handle].rights, new_rights);
        }
        if let Some(id) = shared {
            registry.add_refs(id, 1);
        }
        Ok(new)
    }

    /// A new zeroed shared buffer of `len` bytes behind a handle with READ,
    /// WRITE, MAP and TRANSFER rights; the handle holds its one reference.
    pub fn handle_create_shared(&mut self, len: usize, pmm: &mut PhysicalMemoryManager, registry: &mut SharedVmRegistry) -> (r: Result<Handle, HandleError>)
        requires
            old(self).wf(),
            old(self).handle_count() < u32::MAX,
            old(registry).wf(),
            old(registry).spec_next_id() < u64::MAX,
            old(pmm).wf(),
        ensures
            final(self).wf(),
            final(registry).wf(),
            final(pmm).wf(),
            old(self).is_kernel ==> r == Err::<Handle, HandleError>(HandleError::WrongType),
            r is Err ==> final(self).handles() == old(self).handles() && final(registry)@ == old(registry)@,
            !old(self).is_kernel ==> ({
                let rounded = crate::process::vm::page_round_up(len as int);
                let plen = rounded->0;
                &&& (rounded is None || plen == 0 || plen > crate::process::vm::MAX_SHARED_OBJECT) ==>
                    r == Err::<Handle, HandleError>(HandleError::TooLarge)
                &&& (rounded is Some && 0 < plen <= crate::process::vm::MAX_SHARED_OBJECT) ==> {
                    &&& plen / 4096 > old(pmm).spec_free_frames() ==> r == Err::<Handle, HandleError>(HandleError::MapFailed)
                    &&& plen / 4096 <= old(pmm).spec_free_frames() ==> r is Ok
                }
            }),
            r matches Ok(h) ==> {
                let id = old(registry).spec_next_id();
                &&& !old(self).handles().contains_key(h)
                &&& final(self).handles() == old(self).handles().insert(h, HandleEntry {
                        object: HandleObject::SharedFrames { id },
                        rights: RIGHT_READ | RIGHT_WRITE | RIGHT_MAP | RIGHT_TRANSFER })
                &&& final(registry)@.contains_key(id) && final(registry)@[id].refs == 1
            },
            *final(self) == (Process { handle_table: final(self).handle_table, ..*old(self) }),
    {
        if self.is_kernel {
            return Err(HandleError::WrongType);
        }
        let id = match registry.alloc_object(len, pmm) {
            Ok(id) => id,
            Err(ProcessError::OutOfMemory) => return Err(HandleError::MapFailed),
            Err(_) => return Err(HandleError::TooLarge),
        };
        let rights = RIGHT_READ | RIGHT_WRITE | RIGHT_MAP | RIGHT_TRANSFER;
        proof {
            assert(rights & RIGHTS_ALL == rights) by (bit_vector)
                requires rights == 1u32 | 2u32 | 4u32 | 16u32;
        }
        Ok(self.handle_table.insert(HandleObject::SharedFrames { id }, rights))
    }

    /// Closes `handle`, giving back the display or input it held and the
    /// reference to a shared buffer.
    pub fn handle_close(&mut self, handle: Handle, owners: &mut DeviceOwners, registry: &mut SharedVmRegistry, pmm: &mut PhysicalMemoryManager) -> (r: Result<(), HandleError>)
        requires
            old(self).wf(),
            old(registry).wf(),
            old(pmm).wf(),
        ensures
            final(self).wf(),
            final(registry).wf(),
            final(pmm).wf(),
            !old(self).handles().contains_key(handle) ==> r == Err::<(), HandleError>(HandleError::BadHandle)
                && final(self).handles() == old(self).handles() && *final(owners) == *old(owners)
                && final(registry)@ == old(registry)@,
            old(self).handles().contains_key(handle) ==> {
                let object = old(self).handles()[handle].object;
                &&& r is Ok
                &&& final(self).handles() == old(self).handles().remove(handle)
                &&& final(owners).display == (if object is Display && old(owners).display == old(self).pid.0 { 0 } else { old(owners).display })
                &&& final(owners).input == (if object is Input && old(owners).input == old(self).pid.0 { 0 } else { old(owners).input })
                &&& (object matches HandleObject::SharedFrames { id } ==> (old(registry)@.contains_key(id) ==>
                    (old(registry)@[id].refs <= 1 ==> final(registry)@ == old(registry)@.remove(id))
                    && (old(registry)@[id].refs > 1 ==> final(registry)@.dom() == old(registry)@.dom()
                        && final(registry)@[id].refs == old(registry)@[id].refs - 1)))
                &&& (!(object is SharedFrames) ==> final(registry)@ == old(registry)@)
            },
            *final(self) == (Process { handle_table: final(self).handle_table, ..*old(self) }),
    {
        let entry = match self.handle_table.remove(handle) {
            Ok(e) => e,
            Err(e) => return Err(e),
        };
        match entry.object {
            HandleObject::Display => crate::handle::release_display(owners, self.pid),
            HandleObject::Input => crate::handle::release_input(owners, self.pid),
            HandleObject::SharedFrames { id } => {
                registry.release(id, 1, pmm);
                proof {
                    if old(registry)@.contains_key(id) && old(registry)@[id].refs > 1 {
                        assert(registry@.dom() =~= old(registry)@.dom());
                    }
                }
            },
            _ => {},
        }
        Ok(())
    }

    /// Copies the head of memory object `handle` (READ right) into `out`;
    /// returns the number of bytes copied.
    pub fn handle_memory_read(&self, handle: Handle, out: &mut [u8]) -> (r: Result<usize, HandleError>)
        requires
            self.wf(),
        ensures
            final(out)@.len() == old(out)@.len(),
            !self.handles().contains_key(handle) ==> r == Err::<usize, HandleError>(HandleError::BadHandle),
            self.handles().contains_key(handle) && !has_rights(self.handles()[handle].rights, RIGHT_READ) ==>
                r == Err::<usize, HandleError>(HandleError::AccessDenied),
            self.handles().contains_key(handle) && has_rights(self.handles()[handle].rights, RIGHT_READ)
                && !(self.handles()[handle].object is Memory) ==> r == Err::<usize, HandleError>(HandleError::WrongType),
            r is Err ==> final(out)@ == old(out)@,
            self.handles().contains_key(handle) && has_rights(self.handles()[handle].rights, RIGHT_READ)
                && self.handles()[handle].object is Memory ==> {
                let data = self.handles()[handle].object->Memory_0@;
                let n = if old(out)@.len() < data.len() { old(out)@.len() } else { data.len() };
                &&& r == Ok::<usize, HandleError>(n as usize)
                &&& final(out)@ == data.subrange(0, n as int) + old(out)@.subrange(n as int, old(out)@.len() as int)
            },
    {
        let entry = match self.handle_table.require(handle, RIGHT_READ) {
            Ok(e) => e,
            Err(e) => return Err(e),
        };
        match &entry.object {
            HandleObject::Memory(data) => {
                let n = if out.len() < data.len() { out.len() } else { data.len() };
                let ghost out0 = out@;
                let mut k: usize = 0;
                while k < n
                    invariant
                        n <= out@.len(),
                        n <= data@.len(),
                        out@.len() == out0.len(),
                        k <= n,
                        forall|j: int| 0 <= j < k ==> out@[j] == data@[j],
                        forall|j: int| k <= j < out@.len() ==> out@[j] == out0[j],
                    decreases n - k,
                {
                    out[k] = data[k];
                    k = k + 1;
                }
                proof {
                    assert(out@ =~= data@.subrange(0, n as int) + out0.subrange(n as int, out0.len() as int));
                }
                Ok(n)
            },
            _ => Err(HandleError::WrongType),
        }
    }

    /// Copies the head of `src` into memory object `handle` (WRITE right);
    /// returns the number of bytes copied.
    pub fn handle_memory_write(&mut self, handle: Handle, src: &[u8]) -> (r: Result<usize, HandleError>)
        requires
            old(self).wf(),
        ensures
            final(self).wf(),
            !old(self).handles().contains_key(handle) ==> r == Err::<usize, HandleError>(HandleError::BadHandle),
            old(self).handles().contains_key(handle) && !has_rights(old(self).handles()[handle].rights, RIGHT_WRITE) ==>
                r == Err::<usize, HandleError>(HandleError::AccessDenied),
            old(self).handles().contains_key(handle) && has_rights(old(self).handles()[handle].rights, RIGHT_WRITE)
                && !(old(self).handles()[handle].object is Memory) ==> r == Err::<usize, HandleError>(HandleError::WrongType),
            r is Err ==> final(self).handles() == old(self).handles(),
            old(self).handles().contains_key(handle) && has_rights(old(self).handles()[handle].rights, RIGHT_WRITE)
                && old(self).handles()[handle].object is Memory ==> {
                let data = old(self).handles()[handle].object->Memory_0@;
                let n = if src@.len() < data.len() { src@.len() } else { data.len() };
                &&& r == Ok::<usize, HandleError>(n as usize)
                &&& final(self).handles().dom() == old(self).handles().dom()
                &&& final(self).handles()[handle].rights == old(self).handles()[handle].rights
                &&& final(self).handles()[handle].object->Memory_0@ == src@.subrange(0, n as int) + data.subrange(n as int, data.len() as int)
                &&& forall|k: Handle| k != handle && #[trigger] old(self).handles().contains_key(k) ==> final(self).handles()[k] == old(self).handles()[k]
            },
            *final(self) == (Process { handle_table: final(self).handle_table, ..*old(self) }),
    {
        self.handle_table.write_memory(handle, src)
    }

    /// Size in bytes of the frames behind shared-buffer `handle`.
    pub fn handle_shared_len(&self, handle: Handle, registry: &SharedVmRegistry) -> (r: Result<usize, HandleError>)
        requires
            self.wf(),
            registry.wf(),
        ensures
            !self.handles().contains_key(handle) ==> r == Err::<usize, HandleError>(HandleError::BadHandle),
            self.handles().contains_key(handle) && !(self.handles()[handle].object is SharedFrames) ==>
                r == Err::<usize, HandleError>(HandleError::WrongType),
            self.handles().contains_key(handle) && self.handles()[handle].object is SharedFrames ==> {
                let id = self.handles()[handle].object->id;
                &&& !registry@.contains_key(id) ==> r == Err::<usize, HandleError>(HandleError::BadHandle)
                &&& registry@.contains_key(id) ==> r == Ok::<usize, HandleError>((registry@[id].frames@.len() * 4096) as usize)
            },
    {
        let entry = match self.handle_table.get(handle) {
            Ok(e) => e,
            Err(e) => return Err(e),
        };
        match &entry.object {
            HandleObject::SharedFrames { id } => {
                proof {
                    registry.lemma_wf();
                }
                match registry.frame_count(*id) {
                    Some(n) => Ok(n * crate::process::vm::USER_PAGE_SIZE),
                    None => Err(HandleError::BadHandle),
                }
            },
            _ => Err(HandleError::WrongType),
        }
    }

    /// Delivers `value` through endpoint `handle` (SIGNAL right). A signal to
    /// the process itself is added here and `Ok(None)` returned; for another
    /// target the caller delivers it to the returned process.
    pub fn handle_signal(&mut self, handle: Handle, value: u64) -> (r: Result<Option<ProcessId>, HandleError>)
        requires
            old(self).wf(),
        ensures
            final(self).wf(),
            !old(self).handles().contains_key(handle) ==> r == Err::<Option<ProcessId>, HandleError>(HandleError::BadHandle),
            old(self).handles().contains_key(handle) && !has_rights(old(self).handles()[handle].rights, RIGHT_SIGNAL) ==>
                r == Err::<Option<ProcessId>, HandleError>(HandleError::AccessDenied),
            old(self).handles().contains_key(handle) && has_rights(old(self).handles()[handle].rights, RIGHT_SIGNAL) ==> {
                let object = old(self).handles()[handle].object;
                &&& !(object is Endpoint) ==> r == Err::<Option<ProcessId>, HandleError>(HandleError::WrongType)
                &&& (object is Endpoint && object->Endpoint_0 == old(self).pid) ==>
                    r == Ok::<Option<ProcessId>, HandleError>(None)
                    && final(self).spec_pending_signals() == sat_add_u64(old(self).spec_pending_signals(), value)
                &&& (object is Endpoint && object->Endpoint_0 != old(self).pid) ==>
                    r == Ok::<Option<ProcessId>, HandleError>(Some(object->Endpoint_0))
            },
            !(r == Ok::<Option<ProcessId>, HandleError>(None)) ==> *final(self) == *old(self),
    {
        let target = match self.handle_table.require(handle, RIGHT_SIGNAL) {
            Ok(entry) => match &entry.object {
                HandleObject::Endpoint(pid) => *pid,
                _ => return Err(HandleError::WrongType),
            },
            Err(e) => return Err(e),
        };
        if target == self.pid {
            self.add_pending_signal(value);
            return Ok(None);
        }
        Ok(Some(target))
    }

    /// Takes the pending signal count, leaving zero.
    pub fn handle_take_signals(&mut self) -> (r: u64)
        ensures
            r == old(self).spec_pending_signals(),
            *final(self) == (Process { pending_signals: 0, ..*old(self) }),
    {
        let v = self.pending_signals;
        self.pending_signals = 0;
        v
    }

    /// Adds `value` to the pending signal count (saturating).
    pub fn add_pending_signal(&mut self, value: u64)
        ensures
            *final(self) == (Process { pending_signals: sat_add_u64(old(self).pending_signals, value), ..*old(self) }),
    {
        self.pending_signals = self.pending_signals.saturating_add(value);
    }

    /// Claims the display and returns a handle with the DISPLAY_MASTER right
    /// only; `DisplayBusy` when another process holds it.
    pub fn handle_display_acquire(&mut self, owners: &mut DeviceOwners) -> (r: Result<Handle, HandleError>)
        requires
            old(self).wf(),
            old(self).handle_count() < u32::MAX,
        ensures
            final(self).wf(),
            final(owners).input == old(owners).input,
            !(old(owners).display == 0 || old(owners).display == old(self).pid.0) ==>
                r == Err::<Handle, HandleError>(HandleError::DisplayBusy) && *final(self) == *old(self)
                && *final(owners) == *old(owners),
            (old(owners).display == 0 || old(owners).display == old(self).pid.0) ==> (r matches Ok(h)
                && !old(self).handles().contains_key(h)
                && final(self).handles() == old(self).handles().insert(h, HandleEntry { object: HandleObject::Display, rights: RIGHT_DISPLAY_MASTER })
                && final(owners).display == old(self).pid.0),
            *final(self) == (Process { handle_table: final(self).handle_table, ..*old(self) }),
    {
        if !try_acquire_display(owners, self.pid) {
            return Err(HandleError::DisplayBusy);
        }
        proof {
            assert(RIGHT_DISPLAY_MASTER & RIGHTS_ALL == RIGHT_DISPLAY_MASTER) by (bit_vector)
                requires RIGHT_DISPLAY_MASTER == 32u32;
        }
        Ok(self.handle_table.insert(HandleObject::Display, RIGHT_DISPLAY_MASTER))
    }

    /// Claims the input source and returns a handle with the INPUT_MASTER
    /// right only; `DisplayBusy` when another process holds it.
    pub fn handle_input_acquire(&mut self, owners: &mut DeviceOwners) -> (r: Result<Handle, HandleError>)
        requires
            old(self).wf(),
            old(self).handle_count() < u32::MAX,
        ensures
            final(self).wf(),
            final(owners).display == old(owners).display,
            !(old(owners).input == 0 || old(owners).input == old(self).pid.0) ==>
                r == Err::<Handle, HandleError>(HandleError::DisplayBusy) && *final(self) == *old(self)
                && *final(owners) == *old(owners),
            (old(owners).input == 0 || old(owners).input == old(self).pid.0) ==> (r matches Ok(h)
                && !old(self).handles().contains_key(h)
                && final(self).handles() == old(self).handles().insert(h, HandleEntry { object: HandleObject::Input, rights: RIGHT_INPUT_MASTER })
                && final(owners).input == old(self).pid.0),
            *final(self) == (Process { handle_table: final(self).handle_table, ..*old(self) }),
    {
        if !try_acquire_input(owners, self.pid) {
            return Err(HandleError::DisplayBusy);
        }
        proof {
            assert(RIGHT_INPUT_MASTER & RIGHTS_ALL == RIGHT_INPUT_MASTER) by (bit_vector)
                requires RIGHT_INPUT_MASTER == 64u32;
        }
        Ok(self.handle_table.insert(HandleObject::Input, RIGHT_INPUT_MASTER))
    }

    /// Removes `handle` for transfer to another process (TRANSFER right);
    /// display and input handles never move.
    pub fn handle_take_for_transfer(&mut self, handle: Handle) -> (r: Result<(HandleObject, u32), HandleError>)
        requires
            old(self).wf(),
        ensures
            final(self).wf(),
            !old(self).handles().contains_key(handle) ==> r == Err::<(HandleObject, u32), HandleError>(HandleError::BadHandle),
            old(self).handles().contains_key(handle) && !has_rights(old(self).handles()[handle].rights, RIGHT_TRANSFER) ==>
                r == Err::<(HandleObject, u32), HandleError>(HandleError::AccessDenied),
            old(self).handles().contains_key(handle) && has_rights(old(self).handles()[handle].rights, RIGHT_TRANSFER)
                && (old(self).handles()[handle].object is Display || old(self).handles()[handle].object is Input) ==>
                r == Err::<(HandleObject, u32), HandleError>(HandleError::WrongType),
            old(self).handles().contains_key(handle) && has_rights(old(self).handles()[handle].rights, RIGHT_TRANSFER)
                && !(old(self).handles()[handle].object is Display || old(self).handles()[handle].object is Input) ==>
                r == Ok::<(HandleObject, u32), HandleError>((old(self).handles()[handle].object, old(self).handles()[handle].rights))
                && final(self).handles() == old(self).handles().remove(handle),
            r matches Ok((o, rt)) ==> rt & RIGHTS_ALL == rt,
            r is Err ==> final(self).handles() == old(self).handles(),
            *final(self) == (Process { handle_table: final(self).handle_table, ..*old(self) }),
    {
        match self.handle_table.require(handle, RIGHT_TRANSFER) {
            Ok(entry) => match &entry.object {
                HandleObject::Display => return Err(HandleError::WrongType),
                HandleObject::Input => return Err(HandleError::WrongType),
                _ => {},
            },
            Err(e) => return Err(e),
        }
        self.handle_table.take_for_transfer(handle)
    }

    /// Accepts a transferred object with its (already narrowed) rights.
    pub fn handle_receive(&mut self, object: HandleObject, rights: u32) -> (h: Handle)
        requires
            old(self).wf(),
            old(self).handle_count() < u32::MAX,
        ensures
            final(self).wf(),
            !old(self).handles().contains_key(h),
            final(self).handles() == old(self).handles().insert(h, HandleEntry { object, rights: rights & RIGHTS_ALL }),
            *final(self) == (Process { handle_table: final(self).handle_table, ..*old(self) }),
    {
        self.handle_table.insert(object, rights)
    }
}

impl Process {
    /// Gives back everything the process owns outside its table entry: the
    /// address space and its frames, its references to shared objects, its
    /// guard and TLS bookkeeping, and its handles (releasing the display or
    /// input it held through one).
    pub fn release_vm_resources(&mut self, mem: &mut crate::process::vm::KernelMemory)
        requires
            old(self).wf(),
            old(mem).wf(),
        ensures
            final(self).wf(),
            final(mem).wf(),
            !final(self).spec_has_address_space(),
            final(self).handles() == Map::<Handle, HandleEntry>::empty(),
            final(self).shared_owned@.len() == 0,
            final(self).shared_pages@.len() == 0,
            final(self).guard_regions@.len() == 0,
            final(self).tls_allocation is None,
            final(self).fds() == old(self).fds(),
            final(self).pid == old(self).pid,
            final(self).state == old(self).state,
            final(self).status == old(self).status,
            final(self).is_kernel == old(self).is_kernel,
            final(self).context == old(self).context,
            final(self).spec_pending_signals() == old(self).spec_pending_signals(),
            final(self).spec_has_kernel_stack() == old(self).spec_has_kernel_stack(),
            final(mem).owners.display == old(mem).owners.display || (final(mem).owners.display == 0 && old(mem).owners.display == old(self).pid.0),
            final(mem).owners.input == old(mem).owners.input || (final(mem).owners.input == 0 && old(mem).owners.input == old(self).pid.0),
            (exists|h: Handle| #[trigger] old(self).handles().contains_key(h) && old(self).handles()[h].object is Display)
                && old(mem).owners.display == old(self).pid.0 ==> final(mem).owners.display == 0,
            (exists|h: Handle| #[trigger] old(self).handles().contains_key(h) && old(self).handles()[h].object is Input)
                && old(mem).owners.input == old(self).pid.0 ==> final(mem).owners.input == 0,
    {
        match self.address_space.take() {
            Some(a) => a.release(&mut mem.pmm),
            None => {},
        }
        let mut i: usize = 0;
        while i < self.shared_pages.len()
            invariant
                mem.wf(),
                mem.owners == old(mem).owners,
            decreases self.shared_pages@.len() - i,
        {
            let id = self.shared_pages[i].1;
            mem.registry.release(id, 1, &mut mem.pmm);
            i = i + 1;
        }
        self.shared_pages = Vec::new();
        let mut j: usize = 0;
        while j < self.shared_owned.len()
            invariant
                mem.wf(),
                mem.owners == old(mem).owners,
            decreases self.shared_owned@.len() - j,
        {
            let id = self.shared_owned[j];
            mem.registry.release(id, 1, &mut mem.pmm);
            j = j + 1;
        }
        self.shared_owned = Vec::new();
        self.guard_regions = Vec::new();
        self.tls_allocation = None;
        let ghost h0 = self.handles();
        let objects = self.handle_table.drain_objects();
        let pid = self.pid;
        let mut k: usize = 0;
        while k < objects.len()
            invariant
                mem.wf(),
                pid == old(self).pid,
                mem.owners.display == old(mem).owners.display || (mem.owners.display == 0 && old(mem).owners.display == pid.0),
                mem.owners.input == old(mem).owners.input || (mem.owners.input == 0 && old(mem).owners.input == pid.0),
                (exists|m: int| 0 <= m < k && (#[trigger] objects@[m]) is Display) && old(mem).owners.display == pid.0 ==> mem.owners.display == 0,
                (exists|m: int| 0 <= m < k && (#[trigger] objects@[m]) is Input) && old(mem).owners.input == pid.0 ==> mem.owners.input == 0,
            decreases objects@.len() - k,
        {
            match &objects[k] {
                HandleObject::Display => crate::handle::release_display(&mut mem.owners, pid),
                HandleObject::Input => crate::handle::release_input(&mut mem.owners, pid),
                HandleObject::SharedFrames { id } => mem.registry.release(*id, 1, &mut mem.pmm),
                _ => {},
            }
            k = k + 1;
        }
        proof {
            if exists|h: Handle| #[trigger] h0.contains_key(h) && h0[h].object is Display {
                let h = choose|h: Handle| #[trigger] h0.contains_key(h) && h0[h].object is Display;
                assert(objects@.contains(h0[h].object));
                let m = choose|m: int| 0 <= m < objects@.len() && objects@[m] == h0[h].object;
                assert(objects@[m] is Display);
            }
            if exists|h: Handle| #[trigger] h0.contains_key(h) && h0[h].object is Input {
                let h = choose|h: Handle| #[trigger] h0.contains_key(h) && h0[h].object is Input;
                assert(objects@.contains(h0[h].object));
                let m = choose|m: int| 0 <= m < objects@.len() && objects@[m] == h0[h].object;
                assert(objects@[m] is Input);
            }
        }
    }
}

/// Number of entries of `s` that name a VFS descriptor.
pub open spec fn vfs_entry_count(s: Seq<(ProcessFd, FdEntry)>) -> nat
    decreases s.len(),
{
    if s.len() == 0 {
        0
    } else {
        vfs_entry_count(s.drop_last()) + if s.last().1.target is Vfs { 1nat } else { 0nat }
    }
}

/// Whether some entry of `s` names VFS descriptor `k`.
pub open spec fn names_vfs(s: Seq<(ProcessFd, FdEntry)>, k: FileDescriptor) -> bool {
    exists|i: int| 0 <= i < s.len() && (#[trigger] s[i]).1.target == FdTarget::Vfs(k)
}

impl Process {
    /// Empties the descriptor table, closing every VFS descriptor it held;
    /// returns how many were closed.
    pub fn cleanup_fds<F: FileSystem>(&mut self, vfs: &mut VirtualFileSystem<F>) -> (r: usize)
        requires
            old(self).wf(),
            old(vfs).wf(),
        ensures
            final(self).wf(),
            final(vfs).wf(),
            final(self).fds() == Map::<ProcessFd, FdEntry>::empty(),
            r == vfs_entry_count(old(self).fd_table@),
            final(vfs).next_fd == old(vfs).next_fd,
            forall|k: FileDescriptor| #[trigger] final(vfs).files().contains_key(k) <==>
                old(vfs).files().contains_key(k) && !names_vfs(old(self).fd_table@, k),
            *final(self) == (Process { fd_table: final(self).fd_table, ..*old(self) }),
    {
        let ghost t0 = self.fd_table@;
        let table = self.take_fds();
        let mut closed: usize = 0;
        let mut i: usize = 0;
        while i < table.len()
            invariant
                table@ == t0,
                i <= t0.len(),
                vfs.wf(),
                vfs.next_fd == old(vfs).next_fd,
                closed == vfs_entry_count(t0.subrange(0, i as int)),
                closed <= i,
                forall|k: FileDescriptor| #[trigger] vfs.files().contains_key(k) <==>
                    old(vfs).files().contains_key(k) && !names_vfs(t0.subrange(0, i as int), k),
            decreases t0.len() - i,
        {
            let ghost pre = t0.subrange(0, i as int);
            let ghost pre1 = t0.subrange(0, i as int + 1);
            proof {
                assert(pre1.drop_last() =~= pre);
            }
            let ghost files0 = vfs.files();
            match table[i].1.target {
                FdTarget::Vfs(vfs_fd) => {
                    let _ = vfs.close(vfs_fd);
                    closed = closed + 1;
                    proof {
                        assert forall|k: FileDescriptor| #[trigger] vfs.files().contains_key(k) <==>
                            old(vfs).files().contains_key(k) && !names_vfs(pre1, k) by {
                            if names_vfs(pre, k) {
                                let m = choose|m: int| 0 <= m < pre.len() && (#[trigger] pre[m]).1.target == FdTarget::Vfs(k);
                                assert(pre1[m] == pre[m]);
                            }
                            if names_vfs(pre1, k) && k != vfs_fd {
                                let m = choose|m: int| 0 <= m < pre1.len() && (#[trigger] pre1[m]).1.target == FdTarget::Vfs(k);
                                if m < pre.len() {
                                    assert(pre[m] == pre1[m]);
                                }
                            }
                            if k == vfs_fd {
                                assert(pre1[i as int].1.target == FdTarget::Vfs(k));
                            }
                        }
                    }
                },
                _ => {
                    proof {
                        assert forall|k: FileDescriptor| #[trigger] vfs.files().contains_key(k) <==>
                            old(vfs).files().contains_key(k) && !names_vfs(pre1, k) by {
                            if names_vfs(pre, k) {
                                let m = choose|m: int| 0 <= m < pre.len() && (#[trigger] pre[m]).1.target == FdTarget::Vfs(k);
                                assert(pre1[m] == pre[m]);
                            }
                            if names_vfs(pre1, k) {
                                let m = choose|m: int| 0 <= m < pre1.len() && (#[trigger] pre1[m]).1.target == FdTarget::Vfs(k);
                                if m < pre.len() {
                                    assert(pre[m] == pre1[m]);
                                }
                            }
                        }
                    }
                },
            }
            i = i + 1;
        }
        proof {
            assert(t0.subrange(0, t0.len() as int) =~= t0);
        }
        closed
    }
}

pub open spec fn sat_add_u64(a: u64, b: u64) -> u64 {
    if a + b > u64::MAX { u64::MAX } else { (a + b) as u64 }
}

/// The descriptor table every new process starts with.
pub open spec fn stdio_fds() -> Map<ProcessFd, FdEntry> {
    map![0u32 => FdEntry { target: FdTarget::Stdin }, 1u32 => FdEntry { target: FdTarget::Stdout },
        2u32 => FdEntry { target: FdTarget::Stderr }]
}

pub proof fn lemma_fd_dom_len(s: Seq<(ProcessFd, FdEntry)>)
    requires
        keys_unique(s),
    ensures
        to_map(s).dom().finite(),
        to_map(s).dom().len() == s.len(),
    decreases s.len(),
{
    if s.len() == 0 {
        assert(to_map(s).dom() =~= Set::<ProcessFd>::empty());
    } else {
        let t = s.drop_last();
        assert(keys_unique(t)) by {
            assert forall|i: int, j: int| 0 <= i < t.len() && 0 <= j < t.len() && i != j implies t[i].0 != t[j].0 by {
                assert(s[i].0 != s[j].0);
            }
        }
        lemma_fd_dom_len(t);
        assert(!has_key(t, s.last().0)) by {
            if has_key(t, s.last().0) {
                let i = choose|i: int| 0 <= i < t.len() && t[i].0 == s.last().0;
                assert(s[i].0 != s[s.len() - 1].0);
            }
        }
        lemma_push(t, s.last().0, s.last().1);
        assert(t.push((s.last().0, s.last().1)) =~= s);
        assert(to_map(s).dom() =~= to_map(t).dom().insert(s.last().0));
    }
}

} // verus!
