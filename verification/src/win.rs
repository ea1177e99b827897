//! Small decisions of the Win32 layer: key states and the tab window class.

use vstd::prelude::*;

verus! {

/// `WM_CREATE`.
pub const WM_CREATE: u32 = 0x0001;

/// The class name of tab windows.
pub fn tab_class_id() -> (r: &'static str)
    ensures
        r@ == "NWG_TAB"@,
{
    let r = "NWG_TAB";
    proof {
        reveal_strlit("NWG_TAB");
    }
    r
}

/// The system color index that tab windows paint their background with
/// (`COLOR_BTNFACE`).
pub const COLOR_BTNFACE: i32 = 15;

/// Whether the tab class can be registered with the module handle
/// `GetModuleHandleW` gave (its address, 0 for a null handle): a null handle
/// is refused with the initialization error the tab class reports.
pub fn tab_class_module(module_handle: usize) -> (r: Result<usize, String>)
    ensures
        module_handle == 0 ==> (r matches Err(m) && m@ == "GetModuleHandleW failed"@),
        module_handle != 0 ==> r == Ok::<usize, String>(module_handle),
{
    if module_handle == 0 {
        let m = "GetModuleHandleW failed";
        proof {
            reveal_strlit("GetModuleHandleW failed");
        }
        Err(crate::text::from_str(m))
    } else {
        Ok(module_handle)
    }
}

/// Whether a key is down, from the state `GetKeyState` returns:
/// 1 when its high bit is set, else 0.
pub fn get_key_state(state: i16) -> (r: u8)
    ensures
        r == (if state < 0 { 1u8 } else { 0u8 }),
{
    if state < 0 {
        1
    } else {
        0
    }
}

/// What the tab window procedure answers itself: 0 to
/// `WM_CREATE`; every other message goes to the default procedure (`None`).
pub fn tab_proc_result(msg: u32) -> (r: Option<isize>)
    ensures
        msg == WM_CREATE ==> r == Some(0isize),
        msg != WM_CREATE ==> r is None,
{
    if msg == WM_CREATE {
        Some(0)
    } else {
        None
    }
}

} // verus!
