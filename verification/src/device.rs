//! Compute devices.
use vstd::prelude::*;
use vstd::string::*;

use crate::text::decimal_string;

verus! {

/// Where memory lives.
#[derive(Debug, Clone, Copy, PartialEq, Eq, Hash, Structural)]
pub enum Device {
    /// Host memory.
    Cpu,
    /// A CUDA device, by index.
    Cuda(usize),
    /// The default Metal device.
    Mps,
}

impl Device {
    /// How the device is written.
    pub open spec fn text(self) -> Seq<char> {
        match self {
            Device::Cpu => "cpu"@,
            Device::Cuda(i) => "cuda:"@ + crate::text::decimal(i as int),
            Device::Mps => "mps"@,
        }
    }

    /// The device as text: `cpu`, `cuda:1`, `mps`.
    pub fn to_string(&self) -> (s: String)
        ensures
            s@ == self.text(),
    {
        match self {
            Device::Cpu => "cpu".to_owned(),
            Device::Cuda(i) => {
                let mut s = "cuda:".to_owned();
                let digits = decimal_string(*i as u64);
                s.append(digits.as_str());
                s
            },
            Device::Mps => "mps".to_owned(),
        }
    }
}

/// The text of a device tells which it is: behind `cuda:` stands the index in
/// decimal, and the other two are words.
pub proof fn law_device_text(i: usize)
    ensures
        Device::Cpu.text() == "cpu"@,
        Device::Mps.text() == "mps"@,
        ({
            let s = Device::Cuda(i).text();
            &&& s.take(5) == "cuda:"@
            &&& crate::text::is_number(s.skip(5))
            &&& crate::text::number(s.skip(5)) == i
            &&& s.len() > 6 ==> s[5] != '0'
        }),
{
    let s = Device::Cuda(i).text();
    reveal_strlit("cuda:");
    assert(s.take(5) =~= "cuda:"@);
    assert(s.skip(5) =~= crate::text::decimal(i as int));
    crate::text::law_decimal_round_trip(i as int);
    crate::text::law_decimal_has_no_leading_zero(i as int);
}

} // verus!
