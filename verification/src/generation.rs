use vstd::prelude::*;
use vstd::string::StrSliceExecFns;

verus! {

/// The kinds of fractal the farm generates.
#[derive(Clone, Copy, PartialEq, Eq, Debug)]
pub enum FractalKind {
    MobiusFlame,
    FractalFlame,
    RandomLSystem,
    Mandelbrot,
    Newton,
    QuadraticMap,
}

/// The kind of fractal generated from `seed` when none is asked for: the
/// six kinds in turn.
pub open spec fn kind_of_seed(seed: nat) -> FractalKind {
    let r = seed % 6;
    if r == 0 {
        FractalKind::MobiusFlame
    } else if r == 1 {
        FractalKind::FractalFlame
    } else if r == 2 {
        FractalKind::RandomLSystem
    } else if r == 3 {
        FractalKind::Mandelbrot
    } else if r == 4 {
        FractalKind::Newton
    } else {
        FractalKind::QuadraticMap
    }
}

pub fn kind_for_seed(seed: usize) -> (k: FractalKind)
    ensures
        k == kind_of_seed(seed as nat),
{
    let r = seed % 6;
    if r == 0 {
        FractalKind::MobiusFlame
    } else if r == 1 {
        FractalKind::FractalFlame
    } else if r == 2 {
        FractalKind::RandomLSystem
    } else if r == 3 {
        FractalKind::Mandelbrot
    } else if r == 4 {
        FractalKind::Newton
    } else {
        FractalKind::QuadraticMap
    }
}

/// The kind of fractal a name in a request asks for, if any.
pub open spec fn kind_named(name: Seq<char>) -> Option<FractalKind> {
    if name == "newton"@ {
        Some(FractalKind::Newton)
    } else if name == "mobius"@ {
        Some(FractalKind::MobiusFlame)
    } else if name == "flame"@ {
        Some(FractalKind::FractalFlame)
    } else if name == "qmap"@ {
        Some(FractalKind::QuadraticMap)
    } else if name == "lsys"@ {
        Some(FractalKind::RandomLSystem)
    } else if name == "mandelbrot"@ {
        Some(FractalKind::Mandelbrot)
    } else {
        None
    }
}

/// Whether `a` and `b` hold the same characters.
fn same_text(a: &str, b: &str) -> (r: bool)
    ensures
        r == (a@ == b@),
{
    let n = a.unicode_len();
    if n != b.unicode_len() {
        return false;
    }
    for i in 0..n
        invariant
            n == a@.len(),
            n == b@.len(),
            forall|j: int| 0 <= j < i ==> a@[j] == b@[j],
    {
        if a.get_char(i) != b.get_char(i) {
            return false;
        }
    }
    assert(a@ =~= b@);
    true
}

/// The kind of fractal that the name `name` of a request asks for; no name,
/// or an unknown one, asks for none in particular.
pub fn kind_from_name(name: Option<&str>) -> (k: Option<FractalKind>)
    ensures
        k == match name {
            Some(n) => kind_named(n@),
            None => None,
        },
{
    let n = match name {
        Some(n) => n,
        None => return None,
    };
    if same_text(n, "newton") {
        Some(FractalKind::Newton)
    } else if same_text(n, "mobius") {
        Some(FractalKind::MobiusFlame)
    } else if same_text(n, "flame") {
        Some(FractalKind::FractalFlame)
    } else if same_text(n, "qmap") {
        Some(FractalKind::QuadraticMap)
    } else if same_text(n, "lsys") {
        Some(FractalKind::RandomLSystem)
    } else if same_text(n, "mandelbrot") {
        Some(FractalKind::Mandelbrot)
    } else {
        None
    }
}

/// The kind to generate: the one asked for, else the one `seed` picks.
pub fn kind_to_generate(seed: usize, asked: Option<FractalKind>) -> (k: FractalKind)
    ensures
        k == match asked {
            Some(a) => a,
            None => kind_of_seed(seed as nat),
        },
{
    match asked {
        Some(a) => a,
        None => kind_for_seed(seed),
    }
}

/// The seed of the `attempt`-th try (counting from 0) at generating an
/// interesting fractal from `seed`.
pub fn attempt_seed(seed: usize, attempt: usize) -> (s: usize)
    requires
        seed + attempt <= usize::MAX,
    ensures
        s == seed + attempt,
{
    seed + attempt
}

} // verus!
