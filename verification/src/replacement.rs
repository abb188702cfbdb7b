//! The function that runs in place of the hooked bar-chart routine.
//!
//! It takes the arguments of the original routine as plain values: numbers
//! with a fractional part as their IEEE-754 single-precision encoding, and
//! pointers as addresses. It decides whether the original is called and
//! with which arguments; the call itself is up to the caller.

use vstd::prelude::*;
use crate::progress::{lemma_rescaling_is_unique, rescale_progress, rescales_to};
use crate::registry::HookHandle;

verus! {

/// The arguments of one call of the bar-chart routine.
#[derive(Clone, Copy, Debug, PartialEq, Eq, Structural)]
pub struct BarChartCall {
    /// Horizontal position, as an encoding.
    pub x: u32,
    /// Vertical position, as an encoding.
    pub y: u32,
    pub width: u16,
    pub height: u8,
    /// How full the bar is, as an encoding.
    pub progress: u32,
    pub progress_add: i8,
    pub draw_percentage: u8,
    pub draw_black_border: u8,
    /// Address of the bar's colour.
    pub color: usize,
    /// Address of the colour of the added part.
    pub add_color: usize,
}

/// A call that is to be made to the original routine.
#[derive(Clone, Copy, Debug, PartialEq, Eq, Structural)]
pub struct ForwardedCall {
    /// The address to call: the entry of the trampoline.
    pub entry: u32,
    /// The arguments to call it with.
    pub call: BarChartCall,
}

/// Whether `forwarded` is what the replacement makes of `call`: nothing while
/// the way to the original is not known; otherwise a call of the original
/// with the progress rescaled and every other argument as it came.
pub open spec fn forwards(
    original: Option<HookHandle>,
    call: BarChartCall,
    forwarded: Option<ForwardedCall>,
) -> bool {
    match original {
        None => forwarded is None,
        Some(handle) => {
            &&& forwarded is Some
            &&& forwarded->Some_0.entry == handle.original()
            &&& rescales_to(call.progress, forwarded->Some_0.call.progress)
            &&& forwarded->Some_0.call == (BarChartCall {
                progress: forwarded->Some_0.call.progress,
                ..call
            })
        },
    }
}

/// Decides what becomes of a call that reached the hooked routine. Without a
/// handle the call is dropped. With one, the original is to be called at the
/// handle's address, with the progress rescaled and all else unchanged.
pub fn replacement(original: Option<HookHandle>, call: BarChartCall) -> (forwarded: Option<
    ForwardedCall,
>)
    ensures
        forwards(original, call, forwarded),
        forwarded matches Some(f) ==> f.entry != 0,
{
    match original {
        None => None,
        Some(handle) => {
            let progress = rescale_progress(call.progress);
            Some(
                ForwardedCall {
                    entry: handle.original(),
                    call: BarChartCall {
                        x: call.x,
                        y: call.y,
                        width: call.width,
                        height: call.height,
                        progress,
                        progress_add: call.progress_add,
                        draw_percentage: call.draw_percentage,
                        draw_black_border: call.draw_black_border,
                        color: call.color,
                        add_color: call.add_color,
                    },
                },
            )
        },
    }
}

/// A call has exactly one forwarding.
pub proof fn lemma_forwarding_is_unique(
    original: Option<HookHandle>,
    call: BarChartCall,
    first: Option<ForwardedCall>,
    second: Option<ForwardedCall>,
)
    requires
        forwards(original, call, first),
        forwards(original, call, second),
    ensures
        first == second,
{
    if original is Some {
        lemma_rescaling_is_unique(
            call.progress,
            first->Some_0.call.progress,
            second->Some_0.call.progress,
        );
    }
}

} // verus!
