use crate::cpu::{initial_cpu, splice_bytes, CpuError, CpuView, CPU};
use vstd::prelude::*;

verus! {

/// The owning container around the processor. The windowing, input and
/// timing glue that drives it lives outside the library; this type only
/// builds a machine with a program image in place.
pub struct Emulator {
    pub cpu: CPU,
}

impl Emulator {
    /// A fresh machine with `rom` loaded at 0x200. Fails exactly when the
    /// image exceeds the 3584 bytes of program space.
    pub fn new(rom: &Vec<u8>) -> (res: Result<Emulator, CpuError>)
        ensures
            rom@.len() <= 3584 ==> (res matches Ok(em) && em.cpu@.wf() && em.cpu@ == (CpuView {
                mem: splice_bytes(initial_cpu().mem, 0x200, rom@, rom@.len() as int),
                ..initial_cpu()
            })),
            rom@.len() > 3584 ==> res == Err::<Emulator, CpuError>(CpuError::ProgramTooLarge),
    {
        let mut cpu = CPU::new();
        match cpu.load_rom(rom) {
            Ok(()) => Ok(Emulator { cpu }),
            Err(e) => Err(e),
        }
    }
}

} // verus!
