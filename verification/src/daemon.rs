//! What the daemon logs.
use vstd::prelude::*;
use vstd::string::*;

verus! {

/// The level that is logged, by how often the verbose flag was given.
pub open spec fn level_of(verbosity: u8) -> Seq<char> {
    if verbosity == 0 {
        "info"@
    } else if verbosity == 1 {
        "debug"@
    } else {
        "trace"@
    }
}

/// What is said less of, whatever the level.
pub open spec fn silenced() -> Seq<Seq<char>> {
    seq![
        "iroh_net::magicsock=error"@,
        "iroh::magicsock=error"@,
        "swarm_discovery=error"@,
    ]
}

/// The directives for the log: the level, unless the environment has set one, and
/// what is silenced.
pub open spec fn directives_of(verbosity: u8, configured: bool) -> Seq<Seq<char>> {
    if configured {
        silenced()
    } else {
        seq![level_of(verbosity)] + silenced()
    }
}

/// The level that is logged, by how often the verbose flag was given.
pub fn log_level(verbosity: u8) -> (r: &'static str)
    ensures
        r@ == level_of(verbosity),
{
    match verbosity {
        0 => "info",
        1 => "debug",
        _ => "trace",
    }
}

/// The directives for the log: the level, unless the environment has set one, and
/// what is silenced.
pub fn log_directives(verbosity: u8, configured: bool) -> (r: Vec<&'static str>)
    ensures
        r@.map_values(|d: &'static str| d@) == directives_of(verbosity, configured),
{
    let mut r: Vec<&'static str> = Vec::new();
    if !configured {
        r.push(log_level(verbosity));
    }
    r.push("iroh_net::magicsock=error");
    r.push("iroh::magicsock=error");
    r.push("swarm_discovery=error");
    assert(r@.map_values(|d: &'static str| d@) =~= directives_of(verbosity, configured));
    r
}

/// The noise of the network layer is silenced in any case. Where nothing was configured, the
/// level comes first: it says more the more often it was asked for.
pub proof fn law_noise_is_silenced(verbosity: u8, i: int)
    requires
        0 <= i < silenced().len(),
    ensures
        directives_of(verbosity, true).contains(silenced()[i]),
        directives_of(verbosity, false).contains(silenced()[i]),
        directives_of(verbosity, true).len() == silenced().len(),
        directives_of(verbosity, false).len() == silenced().len() + 1,
        directives_of(0, false)[0] == "info"@,
        directives_of(1, false)[0] == "debug"@,
        verbosity >= 2 ==> directives_of(verbosity, false)[0] == "trace"@,
{
    assert(directives_of(verbosity, true)[i] == silenced()[i]);
    assert(directives_of(verbosity, false)[i + 1] == silenced()[i]);
}

} // verus!
