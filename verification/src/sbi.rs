//! Decisions of the minimal machine-mode SBI firmware: call decoding, the base extension,
//! hart start-up bookkeeping, the UART status bits and the trap-frame update.
use vstd::prelude::*;

verus! {

/// Extension ID of the legacy console putchar call.
pub const EID_CONSOLE_PUTCHAR: usize = 0x01;
/// Extension ID of the legacy console getchar call.
pub const EID_CONSOLE_GETCHAR: usize = 0x02;
/// Extension ID of the legacy shutdown call.
pub const EID_SHUTDOWN: usize = 0x08;
/// Extension ID of the base extension.
pub const EID_BASE: usize = 0x10;
/// Extension ID of the system reset extension.
pub const EID_SRST: usize = 0x53525354;
/// Extension ID of the timer extension.
pub const EID_TIMER: usize = 0x54494D45;
/// Extension ID of the hart state management extension.
pub const EID_HSM: usize = 0x48534D;

/// Function ID of the system reset call that shuts down.
pub const FID_SRST_SHUTDOWN: usize = 0;
/// Function ID of the hart-start call.
pub const FID_HSM_HART_START: usize = 0;

/// SBI error code: success.
pub const SBI_SUCCESS: isize = 0;
/// SBI error code: the call is not supported.
pub const SBI_ERR_NOT_SUPPORTED: isize = -2;
/// SBI error code: an argument is invalid.
pub const SBI_ERR_INVALID_PARAM: isize = -3;
/// SBI error code: the hart is already running.
pub const SBI_ERR_ALREADY_AVAILABLE: isize = -6;

/// Number of harts the firmware keeps start-up records for.
pub const MAX_HARTS: usize = 8;

/// Base address of the CLINT software-interrupt registers.
pub const CLINT_MSIP_BASE: usize = 0x200_0000;

/// Value written to the test device to power off.
pub const EXIT_SUCCESS: u32 = 0x5555;
/// Value written to the test device to reset.
pub const EXIT_RESET: u32 = 0x3333;

/// Result of an SBI call: an error code and a value.
#[derive(Debug, Clone, Copy, PartialEq, Eq, Structural)]
pub struct SbiRet {
    /// The error code.
    pub error: isize,
    /// The returned value.
    pub value: usize,
}

impl SbiRet {
    /// A successful result carrying `value`.
    pub fn success(value: usize) -> (r: SbiRet)
        ensures
            r == (SbiRet { error: SBI_SUCCESS, value }),
    {
        SbiRet { error: SBI_SUCCESS, value }
    }

    /// The not-supported result.
    pub fn not_supported() -> (r: SbiRet)
        ensures
            r == (SbiRet { error: SBI_ERR_NOT_SUPPORTED, value: 0 }),
    {
        SbiRet { error: SBI_ERR_NOT_SUPPORTED, value: 0 }
    }
}

/// What the base extension answers to function `fid`.
pub open spec fn spec_base(fid: usize) -> SbiRet {
    if fid == 0 {
        SbiRet { error: SBI_SUCCESS, value: 0x01000000 }
    } else if fid == 1 {
        SbiRet { error: SBI_SUCCESS, value: 0xFFFF }
    } else if fid == 2 || fid == 3 {
        SbiRet { error: SBI_SUCCESS, value: 1 }
    } else if fid == 4 || fid == 5 || fid == 6 {
        SbiRet { error: SBI_SUCCESS, value: 0 }
    } else {
        SbiRet { error: SBI_ERR_NOT_SUPPORTED, value: 0 }
    }
}

/// The base extension: SBI version 1.0, a custom implementation ID, implementation version 1;
/// every extension probes as present; vendor, architecture and implementation IDs are 0.
pub fn handle_base(fid: usize) -> (r: SbiRet)
    ensures
        r == spec_base(fid),
{
    match fid {
        0 => SbiRet::success(0x01000000),
        1 => SbiRet::success(0xFFFF),
        2 => SbiRet::success(1),
        3 => SbiRet::success(1),
        4 => SbiRet::success(0),
        5 => SbiRet::success(0),
        6 => SbiRet::success(0),
        _ => SbiRet::not_supported(),
    }
}

/// The value written to the test device for reset function `fid`: power-off for the shutdown
/// function, reset for any other.
pub fn reset_code(fid: usize) -> (r: u32)
    ensures
        r == if fid == FID_SRST_SHUTDOWN { EXIT_SUCCESS } else { EXIT_RESET },
{
    if fid == FID_SRST_SHUTDOWN { EXIT_SUCCESS } else { EXIT_RESET }
}

/// The UART can take a byte: the transmit-holding-register-empty bit of the line status.
pub fn uart_tx_ready(lsr: u8) -> (r: bool)
    ensures
        r == ((lsr & 0x20u8) != 0u8),
{
    (lsr & 0x20) != 0
}

/// The UART holds a received byte: the data-ready bit of the line status.
pub fn uart_rx_ready(lsr: u8) -> (r: bool)
    ensures
        r == ((lsr & 1u8) != 0u8),
{
    lsr & 1 != 0
}

/// Where and with what argument a hart starts when woken.
#[derive(Debug, Clone, Copy, PartialEq, Eq, Structural)]
pub struct HartContext {
    /// Supervisor entry address.
    pub start_addr: usize,
    /// Opaque value handed to the hart in `a1`.
    pub opaque: usize,
    /// The hart has been started.
    pub started: bool,
}

/// Start-up records of the harts.
pub struct HartTable {
    contexts: Vec<HartContext>,
}

impl View for HartTable {
    type V = Seq<HartContext>;

    closed spec fn view(&self) -> Seq<HartContext> {
        self.contexts@
    }
}

/// The hart-start call's answer and the records after it.
pub open spec fn hsm_outcome(table: Seq<HartContext>, fid: usize, hart: usize, start_addr: usize, opaque: usize)
    -> (SbiRet, Seq<HartContext>)
{
    if fid != FID_HSM_HART_START {
        (SbiRet { error: SBI_ERR_NOT_SUPPORTED, value: 0 }, table)
    } else if hart >= MAX_HARTS {
        (SbiRet { error: SBI_ERR_INVALID_PARAM, value: 0 }, table)
    } else if table[hart as int].started {
        (SbiRet { error: SBI_ERR_ALREADY_AVAILABLE, value: 0 }, table)
    } else {
        (SbiRet { error: SBI_SUCCESS, value: 0 },
         table.update(hart as int, HartContext { start_addr, opaque, started: true }))
    }
}

impl HartTable {
    /// Records for every hart, none started.
    pub fn new() -> (r: HartTable)
        ensures
            r@.len() == MAX_HARTS,
            forall|i: int| 0 <= i < MAX_HARTS ==> r@[i] == (HartContext { start_addr: 0, opaque: 0, started: false }),
    {
        let mut contexts: Vec<HartContext> = Vec::new();
        let mut i: usize = 0;
        while i < MAX_HARTS
            invariant
                0 <= i <= MAX_HARTS,
                contexts@.len() == i,
                forall|k: int| 0 <= k < i ==> contexts@[k] == (HartContext { start_addr: 0, opaque: 0, started: false }),
            decreases MAX_HARTS - i,
        {
            contexts.push(HartContext { start_addr: 0, opaque: 0, started: false });
            i = i + 1;
        }
        HartTable { contexts }
    }

    /// The hart-start call: refuses other functions, harts beyond the table and harts already
    /// started; otherwise records where the hart starts. On success the caller sends the IPI.
    pub fn handle_hsm(&mut self, fid: usize, target_hart: usize, start_addr: usize, opaque: usize) -> (r: SbiRet)
        requires
            old(self)@.len() == MAX_HARTS,
        ensures
            (r, final(self)@) == hsm_outcome(old(self)@, fid, target_hart, start_addr, opaque),
    {
        if fid != FID_HSM_HART_START {
            return SbiRet::not_supported();
        }
        if target_hart >= MAX_HARTS {
            return SbiRet { error: SBI_ERR_INVALID_PARAM, value: 0 };
        }
        if self.contexts[target_hart].started {
            return SbiRet { error: SBI_ERR_ALREADY_AVAILABLE, value: 0 };
        }
        self.contexts.set(target_hart, HartContext { start_addr, opaque, started: true });
        SbiRet::success(0)
    }

    /// The record of hart `hart`.
    pub fn context(&self, hart: usize) -> (r: HartContext)
        requires
            hart < self@.len(),
        ensures
            r == self@[hart as int],
    {
        self.contexts[hart]
    }
}

/// Address of the software-interrupt register of hart `hart`.
pub fn msip_address(hart: usize) -> (r: usize)
    requires
        hart < MAX_HARTS,
    ensures
        r == CLINT_MSIP_BASE + hart * 4,
{
    CLINT_MSIP_BASE + hart * 4
}

/// Registers saved when the machine-mode trap was taken.
#[derive(Debug, Clone, Copy, PartialEq, Eq, Structural)]
pub struct MachineTrapFrame {
    /// Return address (x1).
    pub ra: usize,
    /// Temporary t0 (x5).
    pub t0: usize,
    /// Temporary t1 (x6).
    pub t1: usize,
    /// Temporary t2 (x7).
    pub t2: usize,
    /// Argument / return register a0 (x10).
    pub a0: usize,
    /// Argument / return register a1 (x11).
    pub a1: usize,
    /// Argument a2 (x12).
    pub a2: usize,
    /// Argument a3 (x13).
    pub a3: usize,
    /// Argument a4 (x14).
    pub a4: usize,
    /// Argument a5 (x15).
    pub a5: usize,
    /// Argument a6, the function ID (x16).
    pub a6: usize,
    /// Argument a7, the extension ID (x17).
    pub a7: usize,
    /// Trapping program counter (mepc).
    pub mepc: usize,
}

/// What a machine trap is, decoded from `mcause`.
#[derive(Debug, Clone, Copy, PartialEq, Eq, Structural)]
pub enum TrapKind {
    /// A machine software interrupt: a start-up IPI.
    WakeIpi,
    /// An environment call from supervisor mode.
    SupervisorEcall,
    /// Anything else, which the firmware ignores.
    Other,
}

/// Decodes the 64-bit `mcause`: the top bit marks an interrupt, the rest is the cause code.
pub fn decode_mcause(mcause: u64) -> (k: TrapKind)
    ensures
        k == if mcause >= 0x8000_0000_0000_0000 && mcause - 0x8000_0000_0000_0000 == 3 {
            TrapKind::WakeIpi
        } else if mcause == 9 {
            TrapKind::SupervisorEcall
        } else {
            TrapKind::Other
        },
{
    let is_interrupt = mcause >= 0x8000_0000_0000_0000;
    let cause_code = mcause & !(1u64 << 63u64);
    assert(cause_code == if is_interrupt { (mcause - 0x8000_0000_0000_0000) as u64 } else { mcause })
        by (bit_vector)
        requires
            is_interrupt == (mcause >= 0x8000_0000_0000_0000u64),
            cause_code == mcause & !(1u64 << 63u64),
    ;
    if is_interrupt && cause_code == 3 {
        TrapKind::WakeIpi
    } else if mcause == 9 {
        TrapKind::SupervisorEcall
    } else {
        TrapKind::Other
    }
}

/// The service a supervisor environment call asks for.
#[derive(Debug, Clone, Copy, PartialEq, Eq, Structural)]
pub enum SbiCall {
    /// Print byte `a0` on the console.
    ConsolePutchar(usize),
    /// Read a byte from the console.
    ConsoleGetchar,
    /// Program the next timer interrupt for time `a0`.
    SetTimer(u64),
    /// Power off or reset, according to the function ID.
    SystemReset(usize),
    /// A base extension query.
    Base(usize),
    /// Hart state management: function, target hart, start address, opaque value.
    Hsm(usize, usize, usize, usize),
    /// An extension the firmware does not implement.
    Unsupported,
}

/// The call that the extension ID in `a7` and the function ID in `a6` select, with its arguments.
pub open spec fn spec_classify(frame: MachineTrapFrame) -> SbiCall {
    let eid = frame.a7;
    if eid == EID_CONSOLE_PUTCHAR {
        SbiCall::ConsolePutchar(frame.a0)
    } else if eid == EID_CONSOLE_GETCHAR {
        SbiCall::ConsoleGetchar
    } else if eid == EID_TIMER {
        SbiCall::SetTimer(frame.a0 as u64)
    } else if eid == EID_SHUTDOWN {
        SbiCall::SystemReset(FID_SRST_SHUTDOWN)
    } else if eid == EID_BASE {
        SbiCall::Base(frame.a6)
    } else if eid == EID_SRST {
        SbiCall::SystemReset(frame.a6)
    } else if eid == EID_HSM {
        SbiCall::Hsm(frame.a6, frame.a0, frame.a1, frame.a2)
    } else {
        SbiCall::Unsupported
    }
}

/// Selects the service of a supervisor environment call from the saved registers.
pub fn classify_ecall(frame: &MachineTrapFrame) -> (c: SbiCall)
    ensures
        c == spec_classify(*frame),
{
    let eid = frame.a7;
    let fid = frame.a6;
    if eid == EID_CONSOLE_PUTCHAR {
        SbiCall::ConsolePutchar(frame.a0)
    } else if eid == EID_CONSOLE_GETCHAR {
        SbiCall::ConsoleGetchar
    } else if eid == EID_TIMER {
        SbiCall::SetTimer(frame.a0 as u64)
    } else if eid == EID_SHUTDOWN {
        SbiCall::SystemReset(FID_SRST_SHUTDOWN)
    } else if eid == EID_BASE {
        SbiCall::Base(fid)
    } else if eid == EID_SRST {
        SbiCall::SystemReset(fid)
    } else if eid == EID_HSM {
        SbiCall::Hsm(fid, frame.a0, frame.a1, frame.a2)
    } else {
        SbiCall::Unsupported
    }
}

/// How a supervisor call passes its arguments, following the SBI calling convention: the
/// extension in `a7` picks the service and the function in `a6` the variant; the timer
/// deadline (`sbi_set_timer(stime_value)`) and the byte to print are the first argument `a0`;
/// a hart-state call names its hart in `a0`, its start address in `a1` and its opaque value in
/// `a2`; the legacy shutdown always powers off; any other extension is unsupported. The call
/// read from a frame depends on nothing but `a7`, `a6`, `a0`, `a1` and `a2`. The extension IDs
/// are those of the SBI specification: legacy putchar 0x01, getchar 0x02 and shutdown 0x08,
/// base 0x10, and the ASCII names "TIME", "SRST" and "HSM".
pub proof fn lemma_ecall_arguments(f: MachineTrapFrame, g: MachineTrapFrame)
    ensures
        EID_CONSOLE_PUTCHAR == 0x01 && EID_CONSOLE_GETCHAR == 0x02 && EID_SHUTDOWN == 0x08 && EID_BASE == 0x10,
        EID_TIMER == 0x54 * 0x100_0000 + 0x49 * 0x1_0000 + 0x4D * 0x100 + 0x45,
        EID_SRST == 0x53 * 0x100_0000 + 0x52 * 0x1_0000 + 0x53 * 0x100 + 0x54,
        EID_HSM == 0x48 * 0x1_0000 + 0x53 * 0x100 + 0x4D,
        FID_SRST_SHUTDOWN == 0,
        f.a7 == EID_TIMER ==> spec_classify(f) == SbiCall::SetTimer(f.a0 as u64),
        f.a7 == EID_CONSOLE_PUTCHAR ==> spec_classify(f) == SbiCall::ConsolePutchar(f.a0),
        f.a7 == EID_CONSOLE_GETCHAR ==> spec_classify(f) == SbiCall::ConsoleGetchar,
        f.a7 == EID_SHUTDOWN ==> spec_classify(f) == SbiCall::SystemReset(FID_SRST_SHUTDOWN),
        f.a7 == EID_BASE ==> spec_classify(f) == SbiCall::Base(f.a6),
        f.a7 == EID_SRST ==> spec_classify(f) == SbiCall::SystemReset(f.a6),
        f.a7 == EID_HSM ==> spec_classify(f) == SbiCall::Hsm(f.a6, f.a0, f.a1, f.a2),
        f.a7 != EID_TIMER && f.a7 != EID_CONSOLE_PUTCHAR && f.a7 != EID_CONSOLE_GETCHAR && f.a7 != EID_SHUTDOWN
            && f.a7 != EID_BASE && f.a7 != EID_SRST && f.a7 != EID_HSM ==> spec_classify(f) == SbiCall::Unsupported,
        f.a7 == g.a7 && f.a6 == g.a6 && f.a0 == g.a0 && f.a1 == g.a1 && f.a2 == g.a2 ==> spec_classify(f) == spec_classify(g),
        f.a7 == EID_TIMER && g.a7 == EID_TIMER ==> (spec_classify(f) == spec_classify(g) <==> f.a0 == g.a0),
{
}

/// Writes an SBI result into `a0`/`a1` and resumes after the `ecall` instruction.
pub fn complete_ecall(frame: &mut MachineTrapFrame, ret: SbiRet)
    requires
        old(frame).mepc <= usize::MAX - 4,
    ensures
        *final(frame) == (MachineTrapFrame {
            a0: ret.error as usize,
            a1: ret.value,
            mepc: (old(frame).mepc + 4) as usize,
            ..*old(frame)
        }),
{
    frame.a0 = ret.error as usize;
    frame.a1 = ret.value;
    frame.mepc = frame.mepc + 4;
}

/// Sends a woken hart to its recorded entry with `a0` = its hart ID and `a1` = the opaque value.
pub fn prepare_wake(frame: &mut MachineTrapFrame, hartid: usize, ctx: HartContext)
    ensures
        *final(frame) == (MachineTrapFrame {
            mepc: ctx.start_addr,
            a0: hartid,
            a1: ctx.opaque,
            ..*old(frame)
        }),
{
    frame.mepc = ctx.start_addr;
    frame.a0 = hartid;
    frame.a1 = ctx.opaque;
}

} // verus!
