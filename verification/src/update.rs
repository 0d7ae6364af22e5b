//! E-ink refresh requests.
//!
//! After pixels are written to the framebuffer, the display controller is
//! asked to refresh a region of the screen with a given waveform. These are
//! plain copies of the driver's request records; the program turns them
//! into the driver's memory layout when it sends them.

use vstd::prelude::*;

verus! {

/// Temperature field value that tells the controller to use its own sensor.
pub const TEMP_USE_AMBIENT: i32 = 0x1001;

/// Waveform used for streamed 1-bit frames.
pub const PLAYER_WAVEFORM_MODE: u32 = 1;

/// Waveform used for a full grayscale picture.
pub const PICTURE_WAVEFORM_MODE: u32 = 2;

/// Waveform used for the test square.
pub const SQUARE_WAVEFORM_MODE: u32 = 4;

/// Marker attached to every refresh request.
pub const UPDATE_MARKER: u32 = 1;

/// A rectangle of the screen, in pixels.
#[derive(Clone, Copy, Debug, PartialEq, Eq, Structural)]
pub struct UpdateRect {
    pub top: u32,
    pub left: u32,
    pub width: u32,
    pub height: u32,
}

/// Description of an alternate source buffer (unused: all zero).
#[derive(Clone, Copy, Debug, PartialEq, Eq, Structural)]
pub struct AltBufferData {
    pub phys_addr: u32,
    pub width: u32,
    pub height: u32,
    pub alt_update_region: UpdateRect,
}

/// A refresh request for the display controller.
#[derive(Clone, Copy, Debug, PartialEq, Eq, Structural)]
pub struct UpdateData {
    pub update_region: UpdateRect,
    pub waveform_mode: u32,
    pub update_mode: u32,
    pub update_marker: u32,
    pub hist_bw_waveform_mode: u32,
    pub hist_gray_waveform_mode: u32,
    pub temp: i32,
    pub flags: u32,
    pub alt_buffer_data: AltBufferData,
}

/// The all-zero rectangle.
pub open spec fn zero_rect() -> UpdateRect {
    UpdateRect { top: 0, left: 0, width: 0, height: 0 }
}

/// The request that refreshes the whole `xres` by `yres` screen with
/// `waveform_mode`: every other field zero, but the marker and the
/// ambient-temperature setting.
pub open spec fn full_screen_update(waveform_mode: u32, xres: u32, yres: u32) -> UpdateData {
    UpdateData {
        update_region: UpdateRect { top: 0, left: 0, width: xres, height: yres },
        waveform_mode,
        update_mode: 0,
        update_marker: UPDATE_MARKER,
        hist_bw_waveform_mode: 0,
        hist_gray_waveform_mode: 0,
        temp: TEMP_USE_AMBIENT,
        flags: 0,
        alt_buffer_data: AltBufferData { phys_addr: 0, width: 0, height: 0, alt_update_region: zero_rect() },
    }
}

/// Law: a full-screen request refreshes with the waveform it was asked for,
/// over the region from the top left corner to `xres` by `yres`, with the
/// update marker and the controller's own temperature sensor, whatever the
/// waveform and the resolution.
pub proof fn lemma_full_screen_fields(waveform_mode: u32, xres: u32, yres: u32)
    ensures
        full_screen_update(waveform_mode, xres, yres).waveform_mode == waveform_mode,
        full_screen_update(waveform_mode, xres, yres).update_region.top == 0,
        full_screen_update(waveform_mode, xres, yres).update_region.left == 0,
        full_screen_update(waveform_mode, xres, yres).update_region.width == xres,
        full_screen_update(waveform_mode, xres, yres).update_region.height == yres,
        full_screen_update(waveform_mode, xres, yres).update_mode == 0,
        full_screen_update(waveform_mode, xres, yres).update_marker == UPDATE_MARKER,
        full_screen_update(waveform_mode, xres, yres).temp == TEMP_USE_AMBIENT,
{
}

/// Law: two full-screen requests differ in their waveform exactly when they
/// were asked for different waveforms on the same screen.
pub proof fn lemma_full_screen_waveform_distinguishes(a: u32, b: u32, xres: u32, yres: u32)
    ensures
        (full_screen_update(a, xres, yres) == full_screen_update(b, xres, yres)) <==> a == b,
{
    if full_screen_update(a, xres, yres) == full_screen_update(b, xres, yres) {
        assert(full_screen_update(a, xres, yres).waveform_mode == a);
        assert(full_screen_update(b, xres, yres).waveform_mode == b);
    }
}

impl UpdateData {
    /// A request to refresh the whole `xres` by `yres` screen with `waveform_mode`.
    pub fn full_screen(waveform_mode: u32, xres: u32, yres: u32) -> (r: UpdateData)
        ensures
            r == full_screen_update(waveform_mode, xres, yres),
            r.waveform_mode == waveform_mode,
            r.update_region == (UpdateRect { top: 0, left: 0, width: xres, height: yres }),
            r.update_marker == UPDATE_MARKER,
            r.temp == TEMP_USE_AMBIENT,
    {
        let zero = UpdateRect { top: 0, left: 0, width: 0, height: 0 };
        UpdateData {
            update_region: UpdateRect { top: 0, left: 0, width: xres, height: yres },
            waveform_mode,
            update_mode: 0,
            update_marker: UPDATE_MARKER,
            hist_bw_waveform_mode: 0,
            hist_gray_waveform_mode: 0,
            temp: TEMP_USE_AMBIENT,
            flags: 0,
            alt_buffer_data: AltBufferData { phys_addr: 0, width: 0, height: 0, alt_update_region: zero },
        }
    }
}

} // verus!
