//! Device choice and the default stream of the MLX backend.

use vstd::prelude::*;

verus! {

/// Kind of device that a stream runs on.
#[derive(Clone, Copy, Debug, PartialEq, Eq, Structural)]
pub enum MlxDeviceType {
    Cpu,
    Gpu,
}

/// A stream of the MLX runtime, by its handle.
#[derive(Debug)]
pub struct MlxStream {
    pub handle: usize,
}

/// The place of the default stream, which is filled once.
#[derive(Debug)]
pub struct StreamSlot {
    pub stream: Option<MlxStream>,
}

/// The device of the default stream.
pub open spec fn chosen_device(use_gpu: bool, metal_available: bool) -> MlxDeviceType {
    if use_gpu && metal_available {
        MlxDeviceType::Gpu
    } else {
        MlxDeviceType::Cpu
    }
}

impl StreamSlot {
    pub fn new() -> (res: StreamSlot)
        ensures
            res.stream is None,
    {
        StreamSlot { stream: None }
    }

    /// Fills the slot, unless it has been filled before: the first stream stays.
    pub fn fill(&mut self, stream: MlxStream)
        ensures
            final(self).stream == match old(self).stream {
                Some(s) => Some(s),
                None => Some(stream),
            },
    {
        if self.stream.is_none() {
            self.stream = Some(stream);
        }
    }
}

/// The device on which a stream has to be created to initialize the backend; none where it has
/// been initialized.
///
/// A GPU that is wanted but not available gives way to the CPU.
pub fn init_mlx(slot: &StreamSlot, use_gpu: bool, metal_available: bool) -> (res: Option<
    MlxDeviceType,
>)
    ensures
        res == match slot.stream {
            Some(_) => None,
            None => Some(chosen_device(use_gpu, metal_available)),
        },
{
    if slot.stream.is_some() {
        return None;
    }
    if use_gpu && metal_available {
        Some(MlxDeviceType::Gpu)
    } else {
        Some(MlxDeviceType::Cpu)
    }
}

/// The GPU is used where it is wanted and available, and only there.
pub proof fn law_gpu_where_wanted_and_available(use_gpu: bool, metal_available: bool)
    ensures
        chosen_device(use_gpu, metal_available) is Gpu <==> use_gpu && metal_available,
        chosen_device(use_gpu, metal_available) is Cpu <==> !use_gpu || !metal_available,
{
}

/// The handle of the default stream; the backend has to be initialized.
pub fn default_stream(slot: &StreamSlot) -> (res: usize)
    requires
        slot.stream is Some,
    ensures
        res == slot.stream->0.handle,
{
    slot.stream.as_ref().unwrap().handle
}

} // verus!
