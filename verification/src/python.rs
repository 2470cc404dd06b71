//! What the Python bindings decide: which device an argument names.
use vstd::prelude::*;
use vstd::string::*;

use crate::text::{decimal_string, find_char, parse_decimal, same_text, signed_string};

verus! {

/// A device type.
#[derive(Debug, Clone, Copy, PartialEq, Eq, Hash, Structural)]
pub enum DeviceType {
    /// The host.
    Cpu,
    /// Metal.
    Mps,
    /// CUDA.
    Cuda,
}

/// Why a device was refused, in the model.
pub enum Refusal {
    /// No device type has this name.
    UnknownType(Seq<char>),
    /// The text names no device.
    InvalidString(Seq<char>),
    /// The index is negative.
    NegativeIndex(int),
    /// The device type has one device only.
    NonZeroIndex(DeviceType, int),
    /// The index stands in the text and beside it.
    IndexGivenTwice(Seq<char>),
    /// A device has its index already.
    IndexWithDevice,
    /// Neither text nor a device, but a value of this type.
    WrongType(Seq<char>),
}

impl Refusal {
    /// The message.
    pub open spec fn text(self) -> Seq<char> {
        match self {
            Refusal::UnknownType(name) =>
            "Expected one of cpu, mps, cuda device type at start of device string: "@ + name,
            Refusal::InvalidString(spec) => "Invalid device string: '"@ + spec + "'"@,
            Refusal::NegativeIndex(i) => "Device index must not be negative, got "@
                + crate::text::signed(i),
            Refusal::NonZeroIndex(kind, i) => kind.text() + " device index must be 0, got "@
                + crate::text::decimal(i),
            Refusal::IndexGivenTwice(spec) =>
            "type (string) must not include an index because index was passed explicitly: "@ + spec,
            Refusal::IndexWithDevice => "device(device) does not take an index"@,
            Refusal::WrongType(name) => "device() expects a string or a device, got "@ + name,
        }
    }
}

/// Why a device was refused.
pub enum DeviceError {
    /// No device type has this name.
    UnknownType(String),
    /// The text names no device.
    InvalidString(String),
    /// The index is negative.
    NegativeIndex(i64),
    /// The device type has one device only.
    NonZeroIndex(DeviceType, usize),
    /// The index stands in the text and beside it.
    IndexGivenTwice(String),
    /// A device has its index already.
    IndexWithDevice,
    /// Neither text nor a device, but a value of this type.
    WrongType(String),
}

impl View for DeviceError {
    type V = Refusal;

    open spec fn view(&self) -> Refusal {
        match self {
            DeviceError::UnknownType(s) => Refusal::UnknownType(s@),
            DeviceError::InvalidString(s) => Refusal::InvalidString(s@),
            DeviceError::NegativeIndex(i) => Refusal::NegativeIndex(*i as int),
            DeviceError::NonZeroIndex(k, i) => Refusal::NonZeroIndex(*k, *i as int),
            DeviceError::IndexGivenTwice(s) => Refusal::IndexGivenTwice(s@),
            DeviceError::IndexWithDevice => Refusal::IndexWithDevice,
            DeviceError::WrongType(s) => Refusal::WrongType(s@),
        }
    }
}

impl DeviceError {
    /// Whether the argument is of the wrong type, rather than of the wrong value.
    pub fn is_type_error(&self) -> (r: bool)
        ensures
            r == (self@ is IndexWithDevice || self@ is WrongType),
    {
        match self {
            DeviceError::IndexWithDevice => true,
            DeviceError::WrongType(_) => true,
            _ => false,
        }
    }

    /// The message of the error.
    pub fn message(&self) -> (s: String)
        ensures
            s@ == self@.text(),
    {
        match self {
            DeviceError::UnknownType(name) => {
                let mut s =
                    "Expected one of cpu, mps, cuda device type at start of device string: ".to_owned();
                s.append(name.as_str());
                s
            },
            DeviceError::InvalidString(spec) => {
                let mut s = "Invalid device string: '".to_owned();
                s.append(spec.as_str());
                s.append("'");
                s
            },
            DeviceError::NegativeIndex(i) => {
                let mut s = "Device index must not be negative, got ".to_owned();
                let digits = signed_string(*i);
                s.append(digits.as_str());
                s
            },
            DeviceError::NonZeroIndex(kind, i) => {
                let mut s = kind.name().to_owned();
                let digits = decimal_string(*i as u64);
                s.append(" device index must be 0, got ");
                s.append(digits.as_str());
                s
            },
            DeviceError::IndexGivenTwice(spec) => {
                let mut s =
                    "type (string) must not include an index because index was passed explicitly: ".to_owned();
                s.append(spec.as_str());
                s
            },
            DeviceError::IndexWithDevice => "device(device) does not take an index".to_owned(),
            DeviceError::WrongType(name) => {
                let mut s = "device() expects a string or a device, got ".to_owned();
                s.append(name.as_str());
                s
            },
        }
    }
}

/// The device type with a name.
pub open spec fn kind_named(name: Seq<char>) -> Option<DeviceType> {
    if name == "cpu"@ {
        Some(DeviceType::Cpu)
    } else if name == "mps"@ {
        Some(DeviceType::Mps)
    } else if name == "cuda"@ {
        Some(DeviceType::Cuda)
    } else {
        None
    }
}

impl DeviceType {
    /// The name.
    pub open spec fn text(self) -> Seq<char> {
        match self {
            DeviceType::Cpu => "cpu"@,
            DeviceType::Mps => "mps"@,
            DeviceType::Cuda => "cuda"@,
        }
    }

    /// The device type with a name.
    pub fn parse(name: &str) -> (r: Result<DeviceType, DeviceError>)
        ensures
            match r {
                Ok(kind) => kind_named(name@) == Some(kind),
                Err(e) => kind_named(name@) is None && e@ == Refusal::UnknownType(name@),
            },
    {
        if same_text(name, "cpu") {
            Ok(DeviceType::Cpu)
        } else if same_text(name, "mps") {
            Ok(DeviceType::Mps)
        } else if same_text(name, "cuda") {
            Ok(DeviceType::Cuda)
        } else {
            Err(DeviceError::UnknownType(name.to_owned()))
        }
    }

    /// The name.
    pub fn name(self) -> (s: &'static str)
        ensures
            s@ == self.text(),
    {
        match self {
            DeviceType::Cpu => "cpu",
            DeviceType::Mps => "mps",
            DeviceType::Cuda => "cuda",
        }
    }
}

/// A device type plus an optional index; no index means the current device of
/// that type.
#[derive(Debug, Clone, Copy, PartialEq, Eq, Hash, Structural)]
pub struct PyDevice {
    kind: DeviceType,
    index: Option<usize>,
}

/// The device with an index, unless the index is negative or, for a type with a
/// single device, not zero.
pub open spec fn device_checked(kind: DeviceType, index: Option<i64>) -> Result<PyDevice, Refusal> {
    match index {
        None => Ok(PyDevice::of(kind, None)),
        Some(i) => if i < 0 {
            Err(Refusal::NegativeIndex(i as int))
        } else if kind != DeviceType::Cuda && i as usize != 0 {
            Err(Refusal::NonZeroIndex(kind, i as usize as int))
        } else {
            Ok(PyDevice::of(kind, Some(i as usize)))
        },
    }
}

/// The device that a name stands for, with an index beside it.
pub open spec fn device_named(name: Seq<char>, index: Option<i64>) -> Result<PyDevice, Refusal> {
    match kind_named(name) {
        Some(kind) => device_checked(kind, index),
        None => Err(Refusal::UnknownType(name)),
    }
}

/// The device that a text stands for: `type`, or `type:index` with an index in
/// decimal digits.
pub open spec fn device_parsed(spec: Seq<char>) -> Result<PyDevice, Refusal> {
    let n = crate::text::until(spec, ':');
    if n == spec.len() {
        device_named(spec, None)
    } else {
        let digits = spec.skip(n + 1);
        if crate::text::is_number(digits) && crate::text::number(digits) <= i64::MAX {
            device_named(spec.take(n), Some(crate::text::number(digits) as i64))
        } else {
            Err(Refusal::InvalidString(spec))
        }
    }
}

/// What a caller gives for a device.
pub enum DeviceArg {
    /// A device.
    Device(PyDevice),
    /// A text.
    Text(String),
    /// A value of another type, by the name of the type.
    Other(String),
}

/// The device that an argument stands for, with an index beside it.
pub open spec fn device_given(device: DeviceArg, index: Option<i64>) -> Result<PyDevice, Refusal> {
    match device {
        DeviceArg::Device(other) => if index is Some {
            Err(Refusal::IndexWithDevice)
        } else {
            Ok(other)
        },
        DeviceArg::Text(spec) => if index is None {
            device_parsed(spec@)
        } else if crate::text::until(spec@, ':') < spec@.len() {
            Err(Refusal::IndexGivenTwice(spec@))
        } else {
            device_named(spec@, index)
        },
        DeviceArg::Other(name) => Err(Refusal::WrongType(name@)),
    }
}

/// The result is as the model says.
pub open spec fn agrees(r: Result<PyDevice, DeviceError>, m: Result<PyDevice, Refusal>) -> bool {
    match r {
        Ok(d) => m == Ok::<PyDevice, Refusal>(d),
        Err(e) => m == Err::<PyDevice, Refusal>(e@),
    }
}

impl PyDevice {
    /// The device of a type with an index.
    pub closed spec fn of(kind: DeviceType, index: Option<usize>) -> PyDevice {
        PyDevice { kind, index }
    }

    /// The device type.
    pub closed spec fn spec_kind(self) -> DeviceType {
        self.kind
    }

    /// The index.
    pub closed spec fn spec_index(self) -> Option<usize> {
        self.index
    }

    /// How the device is written.
    pub open spec fn text(self) -> Seq<char> {
        match self.spec_index() {
            None => self.spec_kind().text(),
            Some(i) => self.spec_kind().text() + ":"@ + crate::text::decimal(i as int),
        }
    }

    /// How the device is displayed.
    pub open spec fn repr_text(self) -> Seq<char> {
        match self.spec_index() {
            None => "device(type='"@ + self.spec_kind().text() + "')"@,
            Some(i) => "device(type='"@ + self.spec_kind().text() + "', index="@
                + crate::text::decimal(i as int) + ")"@,
        }
    }

    /// The device with an index, unless the index is negative or, for a type with
    /// a single device, not zero.
    pub fn checked(kind: DeviceType, index: Option<i64>) -> (r: Result<PyDevice, DeviceError>)
        ensures
            agrees(r, device_checked(kind, index)),
            r matches Ok(d) ==> d.spec_kind() == kind && d.spec_index() == (match index {
                None => None,
                Some(i) => Some(i as usize),
            }),
    {
        let index: Option<usize> = match index {
            None => None,
            Some(i) => {
                if i < 0 {
                    return Err(DeviceError::NegativeIndex(i));
                }
                Some(i as usize)
            },
        };
        if let Some(i) = index {
            // There is a single host and a single Metal device.
            if kind != DeviceType::Cuda && i != 0 {
                return Err(DeviceError::NonZeroIndex(kind, i));
            }
        }
        Ok(PyDevice { kind, index })
    }

    /// The device of a named type with an index.
    fn named(name: &str, index: Option<i64>) -> (r: Result<PyDevice, DeviceError>)
        ensures
            agrees(r, device_named(name@, index)),
    {
        match DeviceType::parse(name) {
            Ok(kind) => PyDevice::checked(kind, index),
            Err(e) => Err(e),
        }
    }

    /// The device that a text stands for: `type` or `type:index`.
    pub fn parse(spec: &str) -> (r: Result<PyDevice, DeviceError>)
        ensures
            agrees(r, device_parsed(spec@)),
    {
        let len: usize = spec.unicode_len();
        let n: usize = find_char(spec, ':');
        if n == len {
            return PyDevice::named(spec, None);
        }
        let digits: &str = spec.substring_char(n + 1, len);
        proof {
            assert(digits@ =~= spec@.skip(n + 1));
        }
        match parse_decimal(digits, i64::MAX as u64) {
            Some(i) => {
                let name: &str = spec.substring_char(0, n);
                proof {
                    assert(name@ =~= spec@.take(n as int));
                    crate::text::lemma_number_nonneg(digits@);
                }
                PyDevice::named(name, Some(i as i64))
            },
            None => Err(DeviceError::InvalidString(spec.to_owned())),
        }
    }

    /// The device that an argument stands for, with an optional index beside it.
    pub fn new(device: &DeviceArg, index: Option<i64>) -> (r: Result<PyDevice, DeviceError>)
        ensures
            agrees(r, device_given(*device, index)),
            r matches Ok(d) ==> (index matches Some(i) ==> d.spec_index() == Some(i as usize)),
    {
        match device {
            DeviceArg::Device(other) => {
                if index.is_some() {
                    return Err(DeviceError::IndexWithDevice);
                }
                Ok(*other)
            },
            DeviceArg::Text(spec) => {
                let spec: &str = spec.as_str();
                if index.is_none() {
                    PyDevice::parse(spec)
                } else if find_char(spec, ':') < spec.unicode_len() {
                    Err(DeviceError::IndexGivenTwice(spec.to_owned()))
                } else {
                    PyDevice::named(spec, index)
                }
            },
            DeviceArg::Other(name) => Err(DeviceError::WrongType(name.clone())),
        }
    }

    /// The device type: `"cpu"`, `"mps"` or `"cuda"`.
    pub fn kind(&self) -> (s: &'static str)
        ensures
            s@ == self.spec_kind().text(),
    {
        self.kind.name()
    }

    /// The device index, or `None` for the current device.
    pub fn index(&self) -> (i: Option<usize>)
        ensures
            i == self.spec_index(),
    {
        self.index
    }

    /// The device as text.
    pub fn __str__(&self) -> (s: String)
        ensures
            s@ == self.text(),
    {
        let mut s = self.kind.name().to_owned();
        if let Some(i) = self.index {
            let digits = decimal_string(i as u64);
            s.append(":");
            s.append(digits.as_str());
        }
        s
    }

    /// The device as it is displayed.
    pub fn __repr__(&self) -> (s: String)
        ensures
            s@ == self.repr_text(),
    {
        let mut s = "device(type='".to_owned();
        s.append(self.kind.name());
        match self.index {
            None => {
                s.append("')");
            },
            Some(i) => {
                let digits = decimal_string(i as u64);
                s.append("', index=");
                s.append(digits.as_str());
                s.append(")");
            },
        }
        s
    }
}

/// A device is its type and its index.
pub proof fn law_device_parts(kind: DeviceType, index: Option<usize>)
    ensures
        PyDevice::of(kind, index).spec_kind() == kind,
        PyDevice::of(kind, index).spec_index() == index,
{
}

/// Devices of one type with one index are one.
pub proof fn law_device_is_its_parts(d: PyDevice)
    ensures
        d == PyDevice::of(d.spec_kind(), d.spec_index()),
{
}

/// The device came from [`PyDevice::checked`], which the constructors all end in.
pub open spec fn valid_device(d: PyDevice) -> bool {
    exists|kind: DeviceType, index: Option<i64>| #[trigger]
        device_checked(kind, index) == Ok::<PyDevice, Refusal>(d)
}

/// Reading a device back from its text gives the device.
pub proof fn law_device_round_trip(d: PyDevice)
    requires
        valid_device(d),
    ensures
        device_parsed(d.text()) == Ok::<PyDevice, Refusal>(d),
{
    let (kind, index) = choose|kind: DeviceType, index: Option<i64>| #[trigger]
        device_checked(kind, index) == Ok::<PyDevice, Refusal>(d);
    let name = kind.text();
    let s = d.text();
    reveal_strlit("cpu");
    reveal_strlit("mps");
    reveal_strlit("cuda");
    reveal_strlit(":");
    assert(kind_named(name) == Some(kind)) by {
        assert("cpu"@[0] != "mps"@[0]);
        assert("cpu"@.len() != "cuda"@.len());
        assert("mps"@.len() != "cuda"@.len());
    }
    assert forall|i: int| 0 <= i < name.len() implies #[trigger] name[i] != ':' by {}
    match index {
        None => {
            assert(s == name);
            crate::text::lemma_until_unique(s, ':', s.len() as int);
        },
        Some(i) => {
            let digits = crate::text::decimal(i as usize as int);
            assert(s =~= name + ":"@ + digits);
            let n = name.len() as int;
            assert(s[n] == ':');
            assert forall|k: int| 0 <= k < n implies #[trigger] s[k] != ':' by {
                assert(s[k] == name[k]);
            }
            crate::text::lemma_until_unique(s, ':', n);
            crate::text::law_decimal_round_trip(i as usize as int);
            assert(s.skip(n + 1) =~= digits);
            assert(s.take(n) =~= name);
        },
    }
}

/// Each device type has one name, and a name at most one device type.
pub proof fn law_names(kind: DeviceType, name: Seq<char>)
    ensures
        kind_named(kind.text()) == Some(kind),
        kind_named(name) matches Some(k) ==> name == k.text(),
        !kind.text().contains(':'),
{
    reveal_strlit("cpu");
    reveal_strlit("mps");
    reveal_strlit("cuda");
    assert("cpu"@[0] != "mps"@[0]);
    assert("cpu"@.len() != "cuda"@.len());
    assert("mps"@.len() != "cuda"@.len());
}

/// An index is refused if it is negative, or if it is not zero and the type has one
/// device only. Any other index is kept as it is, and no index stays none.
pub proof fn law_checked_devices(kind: DeviceType, index: Option<i64>)
    ensures
        device_checked(kind, index) is Err <==> (index matches Some(i) && (i < 0 || (kind
            != DeviceType::Cuda && i as usize != 0))),
        device_checked(kind, index) matches Ok(d) ==> d.spec_kind() == kind && d.spec_index() == (
        match index {
            Some(i) => Some(i as usize),
            None => None,
        }),
        device_checked(kind, index) matches Err(e) ==> e == (if index->0 < 0 {
            Refusal::NegativeIndex(index->0 as int)
        } else {
            Refusal::NonZeroIndex(kind, index->0 as usize as int)
        }),
{
}

/// A text without a colon has no number in it: `until` runs to its end.
proof fn lemma_no_colon(s: Seq<char>)
    ensures
        crate::text::until(s, ':') == s.len() <==> !s.contains(':'),
        crate::text::until(s, ':') < s.len() <==> s.contains(':'),
{
    crate::text::lemma_until(s, ':');
    let n = crate::text::until(s, ':');
    if n < s.len() {
        assert(s[n] == ':');
    } else if s.contains(':') {
        let i = choose|i: int| 0 <= i < s.len() && s[i] == ':';
        assert(s[i] != ':');
    }
}

/// An index beside a name is kept: the device has the type with that name, and that
/// index. Without an index, a plain name is the current device of its type.
pub proof fn law_index_is_kept(name: String, index: Option<i64>)
    requires
        !name@.contains(':'),
    ensures
        device_given(DeviceArg::Text(name), index) matches Ok(d) ==> kind_named(name@) == Some(
            d.spec_kind(),
        ) && d.spec_index() == (match index {
            Some(i) => Some(i as usize),
            None => None,
        }),
        device_given(DeviceArg::Text(name), index) is Ok <==> {
            &&& kind_named(name@) is Some
            &&& index matches Some(i) ==> i >= 0 && (name@ == "cuda"@ || i as usize == 0)
        },
        kind_named(name@) is None ==> device_given(DeviceArg::Text(name), index) == Err::<
            PyDevice,
            Refusal,
        >(Refusal::UnknownType(name@)),
{
    lemma_no_colon(name@);
    law_names(DeviceType::Cuda, name@);
    if let Some(k) = kind_named(name@) {
        law_names(k, name@);
        law_checked_devices(k, index);
    }
}

/// An index beside the name and one behind a colon mean the same device, and are
/// refused alike unless the index is negative.
pub proof fn law_index_beside_or_behind(name: String, i: i64)
    requires
        !name@.contains(':'),
        0 <= i,
    ensures
        device_given(DeviceArg::Text(name), Some(i)) == device_parsed(
            name@ + ":"@ + crate::text::decimal(i as int),
        ),
{
    crate::text::law_decimal_round_trip(i as int);
    law_parsed_devices(name@, crate::text::decimal(i as int));
    lemma_no_colon(name@);
}

/// What a text with a colon stands for: the first colon ends the name; behind it
/// stand decimal digits, of which leading zeros count for nothing.
pub proof fn law_parsed_devices(name: Seq<char>, digits: Seq<char>)
    requires
        !name.contains(':'),
    ensures
        ({
            let r = device_parsed(name + ":"@ + digits);
            let n = crate::text::number(digits);
            if !crate::text::is_number(digits) || n > i64::MAX {
                r == Err::<PyDevice, Refusal>(Refusal::InvalidString(name + ":"@ + digits))
            } else {
                match kind_named(name) {
                    None => r == Err::<PyDevice, Refusal>(Refusal::UnknownType(name)),
                    Some(kind) => if kind == DeviceType::Cuda || n as i64 as usize == 0 {
                        &&& r matches Ok(d)
                        &&& r->Ok_0.spec_kind() == kind
                        &&& r->Ok_0.spec_index() == Some(n as i64 as usize)
                    } else {
                        r == Err::<PyDevice, Refusal>(
                            Refusal::NonZeroIndex(kind, n as i64 as usize as int),
                        )
                    },
                }
            }
        }),
        crate::text::is_number(digits) && crate::text::number(digits) <= i64::MAX ==> device_parsed(
            name + ":"@ + digits,
        ) == device_named(name, Some(crate::text::number(digits) as i64)),
        device_parsed(name) == device_named(name, None),
{
    let s = name + ":"@ + digits;
    let n = name.len() as int;
    reveal_strlit(":");
    assert(s[n] == ':');
    assert forall|k: int| 0 <= k < n implies #[trigger] s[k] != ':' by {
        assert(s[k] == name[k]);
        assert(name.contains(name[k]));
    }
    crate::text::lemma_until_unique(s, ':', n);
    assert(s.take(n) =~= name);
    assert(s.skip(n + 1) =~= digits);
    if crate::text::is_number(digits) {
        crate::text::lemma_number_nonneg(digits);
    }
    lemma_no_colon(name);
}

/// A device stands for itself and takes no index; a text with a colon takes none
/// either; and nothing but a device or a text names a device.
pub proof fn law_given_arguments(d: PyDevice, text: String, other: String, index: Option<i64>)
    ensures
        device_given(DeviceArg::Device(d), None) == Ok::<PyDevice, Refusal>(d),
        index is Some ==> device_given(DeviceArg::Device(d), index) == Err::<PyDevice, Refusal>(
            Refusal::IndexWithDevice,
        ),
        index is Some && text@.contains(':') ==> device_given(DeviceArg::Text(text), index)
            == Err::<PyDevice, Refusal>(Refusal::IndexGivenTwice(text@)),
        device_given(DeviceArg::Text(text), None) == device_parsed(text@),
        device_given(DeviceArg::Other(other), index) == Err::<PyDevice, Refusal>(
            Refusal::WrongType(other@),
        ),
{
    lemma_no_colon(text@);
}

/// The display of a device holds its type between quotes and, where it has an
/// index, the index in decimal.
pub proof fn law_device_display(d: PyDevice)
    ensures
        ({
            let s = d.repr_text();
            let k = d.spec_kind().text();
            let n = 13 + k.len() as int;
            &&& s.take(13) == "device(type='"@
            &&& s.subrange(13, n) == k
            &&& d.spec_index() is None ==> s.skip(n) == "')"@
            &&& d.spec_index() matches Some(i) ==> {
                &&& s.subrange(n, n + 9) == "', index="@
                &&& s.last() == ')'
                &&& s.subrange(n + 9, s.len() - 1) == crate::text::decimal(i as int)
            }
        }),
        ({
            let s = d.text();
            let n = d.spec_kind().text().len() as int;
            &&& s.take(n) == d.spec_kind().text()
            &&& d.spec_index() is None ==> s.len() == n
            &&& d.spec_index() matches Some(i) ==> s[n] == ':' && s.skip(n + 1)
                == crate::text::decimal(i as int)
        }),
{
    reveal_strlit("device(type='");
    reveal_strlit("')");
    reveal_strlit("', index=");
    reveal_strlit(")");
    reveal_strlit(":");
    let s = d.repr_text();
    let k = d.spec_kind().text();
    let n = (13 + k.len()) as int;
    assert(s.take(13) =~= "device(type='"@);
    assert(s.subrange(13, n) =~= k);
    let t = d.text();
    assert(t.take(k.len() as int) =~= k);
    match d.spec_index() {
        None => {
            assert(s.skip(n) =~= "')"@);
        },
        Some(i) => {
            assert(s.subrange(n, n + 9) =~= "', index="@);
            assert(s.subrange(n + 9, s.len() - 1) =~= crate::text::decimal(i as int));
            assert(t.skip(k.len() as int + 1) =~= crate::text::decimal(i as int));
        },
    }
}

/// A message ends with what it is about, whatever that is.
pub proof fn law_messages(text: Seq<char>, i: int, kind: DeviceType)
    ensures
        ({
            let s = Refusal::UnknownType(text).text();
            &&& s.take(70) == "Expected one of cpu, mps, cuda device type at start of device string: "@
            &&& s.skip(70) == text
        }),
        ({
            let s = Refusal::InvalidString(text).text();
            &&& s.take(24) == "Invalid device string: '"@
            &&& s.subrange(24, s.len() - 1) == text
            &&& s.last() == '\''
        }),
        ({
            let s = Refusal::NegativeIndex(i).text();
            &&& s.take(39) == "Device index must not be negative, got "@
            &&& s.skip(39) == crate::text::signed(i)
        }),
        ({
            let s = Refusal::NonZeroIndex(kind, i).text();
            let n = kind.text().len() as int;
            &&& s.take(n) == kind.text()
            &&& s.subrange(n, n + 29) == " device index must be 0, got "@
            &&& s.skip(n + 29) == crate::text::decimal(i)
        }),
        ({
            let s = Refusal::IndexGivenTwice(text).text();
            &&& s.take(77)
                == "type (string) must not include an index because index was passed explicitly: "@
            &&& s.skip(77) == text
        }),
        ({
            let s = Refusal::WrongType(text).text();
            &&& s.take(43) == "device() expects a string or a device, got "@
            &&& s.skip(43) == text
        }),
{
    reveal_strlit("Expected one of cpu, mps, cuda device type at start of device string: ");
    reveal_strlit("Invalid device string: '");
    reveal_strlit("'");
    reveal_strlit("Device index must not be negative, got ");
    reveal_strlit(" device index must be 0, got ");
    reveal_strlit("type (string) must not include an index because index was passed explicitly: ");
    reveal_strlit("device() expects a string or a device, got ");
    let a = Refusal::UnknownType(text).text();
    assert(a.take(70) =~= "Expected one of cpu, mps, cuda device type at start of device string: "@);
    assert(a.skip(70) =~= text);
    let b = Refusal::InvalidString(text).text();
    assert(b.take(24) =~= "Invalid device string: '"@);
    assert(b.subrange(24, b.len() - 1) =~= text);
    let c = Refusal::NegativeIndex(i).text();
    assert(c.take(39) =~= "Device index must not be negative, got "@);
    assert(c.skip(39) =~= crate::text::signed(i));
    let d = Refusal::NonZeroIndex(kind, i).text();
    let n = kind.text().len() as int;
    assert(d.take(n) =~= kind.text());
    assert(d.subrange(n, n + 29) =~= " device index must be 0, got "@);
    assert(d.skip(n + 29) =~= crate::text::decimal(i));
    let e = Refusal::IndexGivenTwice(text).text();
    assert(e.take(77)
        =~= "type (string) must not include an index because index was passed explicitly: "@);
    assert(e.skip(77) =~= text);
    let f = Refusal::WrongType(text).text();
    assert(f.take(43) =~= "device() expects a string or a device, got "@);
    assert(f.skip(43) =~= text);
}

/// An error shows what it is: each kind as that kind, with its text or number.
pub proof fn law_error_views(e: DeviceError)
    ensures
        e is UnknownType <==> e@ is UnknownType,
        e is InvalidString <==> e@ is InvalidString,
        e is NegativeIndex <==> e@ is NegativeIndex,
        e is NonZeroIndex <==> e@ is NonZeroIndex,
        e is IndexGivenTwice <==> e@ is IndexGivenTwice,
        e is IndexWithDevice <==> e@ is IndexWithDevice,
        e is WrongType <==> e@ is WrongType,
        e matches DeviceError::NegativeIndex(i) ==> e@ == Refusal::NegativeIndex(i as int),
        e matches DeviceError::NonZeroIndex(k, i) ==> e@ == Refusal::NonZeroIndex(k, i as int),
        e matches DeviceError::UnknownType(s) ==> e@ == Refusal::UnknownType(s@),
        e matches DeviceError::InvalidString(s) ==> e@ == Refusal::InvalidString(s@),
        e matches DeviceError::IndexGivenTwice(s) ==> e@ == Refusal::IndexGivenTwice(s@),
        e matches DeviceError::WrongType(s) ==> e@ == Refusal::WrongType(s@),
{
}

/// A result that is as the model says is that device, or that refusal: it can only be
/// as two models say if these say the same.
pub proof fn law_agreement(
    r: Result<PyDevice, DeviceError>,
    m: Result<PyDevice, Refusal>,
    n: Result<PyDevice, Refusal>,
)
    ensures
        agrees(r, m) && agrees(r, n) ==> m == n,
        agrees(r, m) ==> (r is Ok <==> m is Ok),
        agrees(r, m) && r is Ok ==> r->Ok_0.spec_kind() == m->Ok_0.spec_kind()
            && r->Ok_0.spec_index() == m->Ok_0.spec_index(),
        agrees(r, m) && r is Err ==> r->Err_0@ == m->Err_0,
{
}

} // verus!
