//! Which package manager a system has, told by the binaries on `PATH`.

use vstd::prelude::*;
use vstd::string::*;

verus! {

/// The package managers the library reads.
#[derive(Clone, Copy, PartialEq, Eq, Debug, Structural)]
pub enum BackendKind {
    Apt,
    Dnf,
    Pacman,
}

/// The binaries that reveal a package manager, in the order they are
/// looked for on `PATH`, most common first: the first one present decides.
pub open spec fn probes() -> Seq<(Seq<char>, BackendKind)> {
    seq![
        ("dpkg-query"@, BackendKind::Apt),
        ("apt"@, BackendKind::Apt),
        ("dnf"@, BackendKind::Dnf),
        ("rpm"@, BackendKind::Dnf),
        ("pacman"@, BackendKind::Pacman),
    ]
}

/// The order in which to look for each package manager's binary.
pub fn detection_order() -> (r: Vec<(&'static str, BackendKind)>)
    ensures
        r@.len() == probes().len(),
        forall|i: int| 0 <= i < r@.len() ==> (#[trigger] r@[i]).0@ == probes()[i].0 && r@[i].1 == probes()[i].1,
{
    let r: Vec<(&'static str, BackendKind)> = vec![
        ("dpkg-query", BackendKind::Apt),
        ("apt", BackendKind::Apt),
        ("dnf", BackendKind::Dnf),
        ("rpm", BackendKind::Dnf),
        ("pacman", BackendKind::Pacman),
    ];
    proof {
        assert(r@[0].0@ == probes()[0].0);
        assert(r@[1].0@ == probes()[1].0);
        assert(r@[2].0@ == probes()[2].0);
        assert(r@[3].0@ == probes()[3].0);
        assert(r@[4].0@ == probes()[4].0);
    }
    r
}

} // verus!
