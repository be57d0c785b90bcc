//! Settings of the `edamame-core` process that the library checks.
use vstd::prelude::*;

use crate::domain::window::WindowConfig;
use crate::error::EdamameError;

verus! {

/// The validated window settings of the core; startup is refused when the
/// retention window is smaller than the live window or the live window is
/// empty.
pub fn window_config(live_window: u64, retention_window: u64) -> (r: Result<
    WindowConfig,
    EdamameError,
>)
    ensures
        live_window == 0 ==> (r matches Err(EdamameError::BadRequest(m)) && m@
            == "live window size must be greater than zero"@),
        live_window > 0 && retention_window < live_window ==> (r matches Err(
            EdamameError::BadRequest(m),
        ) && m@ == "retention window must be at least the live window size"@),
        live_window > 0 && retention_window >= live_window ==> r == Ok::<
            WindowConfig,
            EdamameError,
        >(WindowConfig { window_size: live_window, retention_window }),
{
    let window = WindowConfig { window_size: live_window, retention_window };
    window.validate()?;
    Ok(window)
}

} // verus!
