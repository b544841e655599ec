//! `whypkg` (default): the interactive investigator. This module picks the
//! package pool the browser starts from; the interface itself is
//! [`crate::tui`].

use vstd::prelude::*;
use crate::model::World;
use crate::text::sviews;
use crate::order::lex_sorted;

verus! {

/// What the browser shows.
pub struct Args {
    /// Only packages with a pending upgrade.
    pub upgradable: bool,
}

/// The root pool of the browser: the upgradable packages with
/// `--upgradable`, else every installed package, each once, sorted.
pub fn pool(world: &World, args: &Args) -> (r: Vec<String>)
    requires
        world.wf(),
    ensures
        lex_sorted(sviews(r@)),
        sviews(r@).no_duplicates(),
        forall|n: Seq<char>|
            sviews(r@).contains(n) <==> if args.upgradable {
                world.upgradable(n)
            } else {
                world.pkgs().contains_key(n)
            },
{
    if args.upgradable {
        world.upgradable_names_sorted()
    } else {
        world.all_names_sorted()
    }
}

/// The message for an empty pool.
pub fn empty_pool_message(args: &Args) -> (s: &'static str)
    ensures
        s@ == if args.upgradable {
            "Nothing to upgrade - system is up to date."@
        } else {
            "No packages found."@
        },
{
    if args.upgradable {
        "Nothing to upgrade - system is up to date."
    } else {
        "No packages found."
    }
}

} // verus!
