//! Runtime settings. One value of [`Settings`] serves a whole process.
use vstd::prelude::*;
use vstd::string::*;

verus! {

/// The settings of a process.
#[derive(Debug, Clone, Copy, PartialEq, Eq, Structural)]
pub struct Settings {
    caching: bool,
}

impl Settings {
    /// Device caching allocators cache freed memory.
    pub closed spec fn caching(self) -> bool {
        self.caching
    }

    /// How the settings are written.
    pub open spec fn text(self) -> Seq<char> {
        "lumen.config(memory_caching="@ + (if self.caching() {
            "True"@
        } else {
            "False"@
        }) + ")"@
    }

    /// The settings as text.
    pub fn repr(&self) -> (s: String)
        ensures
            s@ == self.text(),
    {
        let mut s = "lumen.config(memory_caching=".to_owned();
        if memory_caching(self) {
            s.append("True");
        } else {
            s.append("False");
        }
        s.append(")");
        s
    }
}

impl Default for Settings {
    /// Caching is on by default.
    fn default() -> (s: Settings)
        ensures
            s.caching(),
    {
        Settings { caching: true }
    }
}

/// Whether device caching allocators cache freed memory (default: true).
pub fn memory_caching(settings: &Settings) -> (enabled: bool)
    ensures
        enabled == settings.caching(),
{
    settings.caching
}

/// Turns device memory caching on or off.
///
/// When off, every allocation goes straight to the device backend, in its exact
/// size, and goes back to it when it is released. Takes effect for subsequent
/// allocations; memory already cached stays reserved until the cache is emptied.
/// Pointers from either mode can be released at any time, since each carries its
/// own deleter.
pub fn set_memory_caching(settings: &mut Settings, enabled: bool)
    ensures
        final(settings).caching() == enabled,
{
    settings.caching = enabled;
}

} // verus!
