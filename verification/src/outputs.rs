//! The outputs of a compositor, and which of them is meant by a name.

use vstd::prelude::*;

verus! {

/// The interface that outputs are advertised under.
pub const OUTPUT_INTERFACE: &'static str = "wl_output";

/// The version of that interface from which on an output tells its name, and beyond which none is
/// asked for.
pub const OUTPUT_VERSION: u32 = 4;

/// An object that the compositor advertises.
#[derive(Debug)]
pub struct Advertised {
    pub name: u32,
    pub interface: String,
    pub version: u32,
}

/// What the first `n` objects bind to: the outputs, each at its own version or at
/// [`OUTPUT_VERSION`], whichever is less.
pub open spec fn bindings(globals: Seq<Advertised>, n: nat) -> Seq<(u32, u32)>
    decreases n,
{
    if n == 0 {
        Seq::empty()
    } else {
        let before = bindings(globals, (n - 1) as nat);
        let g = globals[n - 1];
        if g.interface@ == OUTPUT_INTERFACE@ {
            before.push(
                (
                    g.name,
                    if g.version < OUTPUT_VERSION {
                        g.version
                    } else {
                        OUTPUT_VERSION
                    },
                ),
            )
        } else {
            before
        }
    }
}

/// The outputs to bind, by name and version.
pub fn outputs_to_bind(globals: &Vec<Advertised>) -> (r: Vec<(u32, u32)>)
    ensures
        r@ == bindings(globals@, globals@.len()),
{
    let wanted: String = OUTPUT_INTERFACE.to_owned();
    let mut r: Vec<(u32, u32)> = Vec::new();
    let mut i: usize = 0;
    while i < globals.len()
        invariant
            i <= globals@.len(),
            wanted@ == OUTPUT_INTERFACE@,
            r@ == bindings(globals@, i as nat),
        decreases globals.len() - i,
    {
        let g: &Advertised = &globals[i];
        if g.interface == wanted {
            let version: u32 = if g.version < OUTPUT_VERSION {
                g.version
            } else {
                OUTPUT_VERSION
            };
            r.push((g.name, version));
        }
        i = i + 1;
    }
    r
}

/// Whether `i` is the last output of that name to have told it.
pub open spec fn last_named(names: Seq<String>, wanted: Seq<char>, i: int) -> bool {
    &&& 0 <= i < names.len()
    &&& names[i]@ == wanted
    &&& forall|j: int| i < j < names.len() ==> (#[trigger] names[j])@ != wanted
}

/// The output of a name. Where several have it, the one that told it last.
pub fn find_output(names: &Vec<String>, wanted: &String) -> (r: Option<usize>)
    ensures
        match r {
            Some(i) => last_named(names@, wanted@, i as int),
            None => forall|j: int| 0 <= j < names@.len() ==> (#[trigger] names@[j])@ != wanted@,
        },
{
    let mut i: usize = names.len();
    while i > 0
        invariant
            i <= names@.len(),
            forall|j: int| i <= j < names@.len() ==> (#[trigger] names@[j])@ != wanted@,
        decreases i,
    {
        i = i - 1;
        if names[i] == *wanted {
            return Some(i);
        }
    }
    None
}

/// All outputs are bound, in the order in which they are advertised, and nothing else: each at its own
/// version, but at no more than the fourth.
pub proof fn every_output_is_bound(globals: Seq<Advertised>, n: nat)
    requires
        n <= globals.len(),
    ensures
        bindings(globals, n) == globals.take(n as int).filter(
            |g: Advertised| g.interface@ == "wl_output"@,
        ).map_values(
            |g: Advertised|
                (
                    g.name,
                    if g.version > 4 {
                        4u32
                    } else {
                        g.version
                    },
                ),
        ),
    decreases n,
{
    reveal(Seq::filter);
    let keep = |g: Advertised| g.interface@ == "wl_output"@;
    let bound = |g: Advertised|
        (
            g.name,
            if g.version > 4 {
                4u32
            } else {
                g.version
            },
        );
    let given = globals.take(n as int);
    if n > 0 {
        every_output_is_bound(globals, (n - 1) as nat);
        assert(given.drop_last() =~= globals.take(n - 1));
        assert(given.last() == globals[n - 1]);
    }
    assert(bindings(globals, n) =~= given.filter(keep).map_values(bound));
}

/// Of two outputs of a name, the one that was advertised later is found.
pub proof fn later_outputs_come_first(names: Seq<String>, wanted: Seq<char>, i: int, j: int)
    requires
        last_named(names, wanted, i),
        0 <= j < names.len(),
        names[j]@ == wanted,
    ensures
        j <= i,
        names[i]@ == wanted,
{
}

} // verus!
