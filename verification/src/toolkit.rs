//! Where the CUDA runtime library is looked for, and how it is recognized.
use vstd::prelude::*;
use vstd::string::*;

use crate::text::{ends_with, same_text, starts_with};

verus! {

/// A variable that names the home of a CUDA toolkit.
#[derive(Debug, Clone, Copy, PartialEq, Eq, Structural)]
pub enum HomeVar {
    /// `CUDA_HOME`.
    CudaHome,
    /// `CUDA_PATH`.
    CudaPath,
}

impl HomeVar {
    /// The name of the variable.
    pub open spec fn text(self) -> Seq<char> {
        match self {
            HomeVar::CudaHome => "CUDA_HOME"@,
            HomeVar::CudaPath => "CUDA_PATH"@,
        }
    }

    /// The name of the variable.
    pub fn name(self) -> (s: &'static str)
        ensures
            s@ == self.text(),
    {
        match self {
            HomeVar::CudaHome => "CUDA_HOME",
            HomeVar::CudaPath => "CUDA_PATH",
        }
    }
}

/// A directory to look in, in the model.
pub enum Spot {
    /// The one that `CUDART_LIB_DIR` names.
    Given,
    /// One below the home of a toolkit.
    Below(HomeVar, Seq<char>),
    /// A common install location.
    Common(Seq<char>),
}

impl Spot {
    /// Who named the directory.
    pub open spec fn source(self) -> Seq<char> {
        match self {
            Spot::Given => "CUDART_LIB_DIR"@,
            Spot::Below(var, _) => var.text(),
            Spot::Common(_) => "/usr/local/cuda"@,
        }
    }
}

/// A directory to look in.
pub enum Place {
    /// The one that `CUDART_LIB_DIR` names.
    Given,
    /// One below the home of a toolkit.
    Below(HomeVar, String),
    /// A common install location.
    Common(String),
}

impl View for Place {
    type V = Spot;

    open spec fn view(&self) -> Spot {
        match self {
            Place::Given => Spot::Given,
            Place::Below(var, sub) => Spot::Below(*var, sub@),
            Place::Common(dir) => Spot::Common(dir@),
        }
    }
}

impl Place {
    /// Who named the directory.
    pub fn source(&self) -> (s: &'static str)
        ensures
            s@ == self@.source(),
    {
        match self {
            Place::Given => "CUDART_LIB_DIR",
            Place::Below(var, _) => var.name(),
            Place::Common(_) => "/usr/local/cuda",
        }
    }
}

/// The directories as the model sees them.
pub open spec fn spots(v: Seq<Place>) -> Seq<Spot> {
    v.map_values(|p: Place| p@)
}

/// The standard directories below the home of a toolkit.
pub open spec fn below(var: HomeVar) -> Seq<Spot> {
    seq![
        Spot::Below(var, "lib64"@),
        Spot::Below(var, "lib/x64"@),
        Spot::Below(var, "lib"@),
        Spot::Below(var, "lib64/stubs"@),
        Spot::Below(var, "targets/aarch64-linux/lib"@),
    ]
}

/// Common install locations.
pub open spec fn common() -> Seq<Spot> {
    seq![
        Spot::Common("/usr/local/cuda/lib64"@),
        Spot::Common("/usr/local/cuda/lib/x64"@),
        Spot::Common("/usr/local/cuda/targets/x86_64-linux/lib"@),
        Spot::Common("/usr/local/cuda/targets/aarch64-linux/lib"@),
        Spot::Common("/usr/lib/x86_64-linux-gnu"@),
        Spot::Common("/usr/lib/aarch64-linux-gnu"@),
    ]
}

/// The order of the search, given which variables are set: the explicit
/// directory, then the homes, then the common locations.
pub open spec fn search_order(lib_dir: bool, cuda_home: bool, cuda_path: bool) -> Seq<Spot> {
    (if lib_dir {
        seq![Spot::Given]
    } else {
        Seq::empty()
    }) + (if cuda_home {
        below(HomeVar::CudaHome)
    } else {
        Seq::empty()
    }) + (if cuda_path {
        below(HomeVar::CudaPath)
    } else {
        Seq::empty()
    }) + common()
}

/// Adds the standard directories below the home of a toolkit.
fn push_below(v: &mut Vec<Place>, var: HomeVar)
    ensures
        spots(final(v)@) == spots(old(v)@) + below(var),
{
    v.push(Place::Below(var, "lib64".to_owned()));
    v.push(Place::Below(var, "lib/x64".to_owned()));
    v.push(Place::Below(var, "lib".to_owned()));
    v.push(Place::Below(var, "lib64/stubs".to_owned()));
    v.push(Place::Below(var, "targets/aarch64-linux/lib".to_owned()));
    assert(spots(v@) =~= spots(old(v)@) + below(var));
}

/// The directories to look in, in order, given which variables are set.
pub fn search_places(lib_dir: bool, cuda_home: bool, cuda_path: bool) -> (v: Vec<Place>)
    ensures
        spots(v@) == search_order(lib_dir, cuda_home, cuda_path),
{
    let mut v: Vec<Place> = Vec::new();
    if lib_dir {
        v.push(Place::Given);
    }
    assert(spots(v@) =~= if lib_dir {
        seq![Spot::Given]
    } else {
        Seq::empty()
    });
    if cuda_home {
        push_below(&mut v, HomeVar::CudaHome);
    }
    if cuda_path {
        push_below(&mut v, HomeVar::CudaPath);
    }
    let ghost before = spots(v@);
    v.push(Place::Common("/usr/local/cuda/lib64".to_owned()));
    v.push(Place::Common("/usr/local/cuda/lib/x64".to_owned()));
    v.push(Place::Common("/usr/local/cuda/targets/x86_64-linux/lib".to_owned()));
    v.push(Place::Common("/usr/local/cuda/targets/aarch64-linux/lib".to_owned()));
    v.push(Place::Common("/usr/lib/x86_64-linux-gnu".to_owned()));
    v.push(Place::Common("/usr/lib/aarch64-linux-gnu".to_owned()));
    assert(spots(v@) =~= before + common());
    assert(spots(v@) =~= search_order(lib_dir, cuda_home, cuda_path));
    v
}

/// A file of this name is the runtime, as a shared, static or import library.
pub open spec fn names_cudart(name: Seq<char>) -> bool {
    ||| crate::text::has_prefix(name, "libcudart"@) && (crate::text::has_suffix(name, ".so"@)
        || crate::text::has_suffix(name, ".a"@))
    ||| name == "cudart.lib"@
}

/// Tests whether a file of this name is the runtime library.
pub fn is_cudart(name: &str) -> (r: bool)
    ensures
        r == names_cudart(name@),
{
    (starts_with(name, "libcudart") && (ends_with(name, ".so") || ends_with(name, ".a")))
        || same_text(name, "cudart.lib")
}

/// The runtime library has one of these names and no other: `libcudart`, anything,
/// and `.so` or `.a`; or `cudart.lib`.
pub proof fn law_runtime_names(middle: Seq<char>, name: Seq<char>)
    ensures
        names_cudart("libcudart"@ + middle + ".so"@),
        names_cudart("libcudart"@ + middle + ".a"@),
        names_cudart("cudart.lib"@),
        names_cudart(name) && name != "cudart.lib"@ ==> {
            &&& name.len() >= 9
            &&& name.take(9) == "libcudart"@
            &&& name.skip(name.len() - 3) == ".so"@ || name.skip(name.len() - 2) == ".a"@
        },
{
    reveal_strlit("libcudart");
    reveal_strlit(".so");
    reveal_strlit(".a");
    let a = "libcudart"@ + middle + ".so"@;
    let b = "libcudart"@ + middle + ".a"@;
    assert(a.take(9) =~= "libcudart"@);
    assert(b.take(9) =~= "libcudart"@);
    assert(a.skip(a.len() - 3) =~= ".so"@);
    assert(b.skip(b.len() - 2) =~= ".a"@);
}

/// A variable that is set adds its directories and changes nothing else: the
/// explicit directory comes first, then those below `CUDA_HOME`, then those below
/// `CUDA_PATH`, in one order below either; the common locations come last.
pub proof fn law_search_order(lib_dir: bool, cuda_home: bool, cuda_path: bool)
    ensures
        search_order(true, cuda_home, cuda_path) == seq![Spot::Given] + search_order(
            false,
            cuda_home,
            cuda_path,
        ),
        search_order(lib_dir, true, cuda_path).len() == search_order(
            lib_dir,
            false,
            cuda_path,
        ).len() + 5,
        search_order(false, true, cuda_path).skip(5) == search_order(false, false, cuda_path),
        search_order(false, cuda_home, true).len() == search_order(false, cuda_home, false).len()
            + 5,
        search_order(false, false, true).skip(5) == search_order(false, false, false),
        search_order(false, cuda_home, true).skip(
            if cuda_home {
                5int
            } else {
                0
            },
        ) == search_order(false, false, true),
        forall|k: int|
            0 <= k < 5 ==> {
                &&& (#[trigger] search_order(false, true, cuda_path)[k]) matches Spot::Below(
                    HomeVar::CudaHome,
                    sub,
                ) && search_order(false, false, true)[k] == Spot::Below(HomeVar::CudaPath, sub)
            },
        forall|k: int|
            0 <= k < 6 ==> (#[trigger] search_order(false, false, false)[k]) is Common,
        search_order(false, false, false).len() == 6,
{
    assert(search_order(true, cuda_home, cuda_path) =~= seq![Spot::Given] + search_order(
        false,
        cuda_home,
        cuda_path,
    ));
    assert(search_order(false, true, cuda_path).skip(5) =~= search_order(false, false, cuda_path));
    assert(search_order(false, false, true).skip(5) =~= search_order(false, false, false));
    assert(search_order(false, cuda_home, true).skip(
        if cuda_home {
            5int
        } else {
            0
        },
    ) =~= search_order(false, false, true));
}

/// Who named a directory does not depend on the directory: the variable did, or
/// nobody.
pub proof fn law_sources(var: HomeVar, a: Seq<char>, b: Seq<char>)
    ensures
        Spot::Below(var, a).source() == var.text(),
        Spot::Common(a).source() == Spot::Common(b).source(),
        Spot::Below(HomeVar::CudaHome, a).source() != Spot::Below(HomeVar::CudaPath, b).source(),
{
    reveal_strlit("CUDA_HOME");
    reveal_strlit("CUDA_PATH");
    assert("CUDA_HOME"@[5] != "CUDA_PATH"@[5]);
}

/// A list of directories shows each of them as it is, in its place.
pub proof fn law_spots(v: Seq<Place>, i: int)
    requires
        0 <= i < v.len(),
    ensures
        spots(v).len() == v.len(),
        v[i] is Given <==> spots(v)[i] is Given,
        v[i] matches Place::Below(var, sub) ==> spots(v)[i] == Spot::Below(var, sub@),
        v[i] matches Place::Common(dir) ==> spots(v)[i] == Spot::Common(dir@),
{
}

} // verus!
