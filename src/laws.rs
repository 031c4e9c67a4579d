//! Laws that relate the registry's operations to one another.

use vstd::prelude::*;

use crate::registry::{
    is_listing, lemma_entry_lt_irreflexive, listed, renamed, scope_of, set_commands, set_scopes,
    visible, ListEntry, Registry,
};
use crate::table::{keys_unique, lemma_pairs_map_of_table, pairs_map, table_map, Row};
use crate::path::{components_of, is_prefix};
use crate::text::trimmed;

verus! {

/// Saving a command that is not blank under an alias of an empty registry,
/// then listing all aliases, yields that one alias, unscoped, with the
/// trimmed command.
pub proof fn law_saved_alias_listed_alone(
    commands: Map<Seq<char>, Seq<char>>,
    scopes: Map<Seq<char>, Seq<char>>,
    alias: Seq<char>,
    command: Seq<char>,
    cwd: Seq<char>,
    listing: Seq<ListEntry>,
)
    requires
        commands == Map::<Seq<char>, Seq<char>>::empty(),
        trimmed(command).len() > 0,
        is_listing(
            listing,
            set_commands(commands, alias, Some(command)),
            set_scopes(scopes, alias, false, cwd),
            true,
            cwd,
        ),
    ensures
        listing.len() == 1,
        listing[0]@ == (Seq::<char>::empty(), alias, trimmed(command)),
{
    let cmds = set_commands(commands, alias, Some(command));
    let scs = set_scopes(scopes, alias, false, cwd);
    let entry = (Seq::<char>::empty(), alias, trimmed(command));
    assert(cmds.contains_key(alias));
    assert(visible(true, cwd, scope_of(scs, alias)));
    let k = choose|k: int| 0 <= k < listing.len() && (#[trigger] listing[k]@).1 == alias;
    assert forall|i: int| 0 <= i < listing.len() implies #[trigger] listing[i]@ == entry by {
        assert(listed(cmds, scs, true, cwd, listing[i]@));
    }
    if listing.len() > 1 {
        assert(listing[0]@ == entry && listing[1]@ == entry);
        lemma_entry_lt_irreflexive(entry);
    }
}

/// Saving a command that trims to nothing under an alias does what deleting
/// the alias does: the alias is removed if present, and nothing changes if
/// it is not.
pub proof fn law_blank_command_deletes(
    commands: Map<Seq<char>, Seq<char>>,
    alias: Seq<char>,
    command: Seq<char>,
)
    requires
        trimmed(command).len() == 0,
    ensures
        set_commands(commands, alias, Some(command)) == set_commands(commands, alias, None),
        set_commands(commands, alias, None) == commands.remove(alias),
        !commands.contains_key(alias) ==> set_commands(commands, alias, None) == commands,
{
    assert(!commands.contains_key(alias) ==> commands.remove(alias) =~= commands);
}

/// An alias saved locally is scoped to the working directory of the call. A
/// listing of all aliases shows it from any directory; a listing from `dir`
/// shows it exactly when the scope's components begin those of `dir`.
pub proof fn law_local_alias_scope(
    commands: Map<Seq<char>, Seq<char>>,
    scopes: Map<Seq<char>, Seq<char>>,
    alias: Seq<char>,
    command: Seq<char>,
    cwd: Seq<char>,
    dir: Seq<char>,
    all_listing: Seq<ListEntry>,
    here_listing: Seq<ListEntry>,
)
    requires
        trimmed(command).len() > 0,
        is_listing(
            all_listing,
            set_commands(commands, alias, Some(command)),
            set_scopes(scopes, alias, true, cwd),
            true,
            dir,
        ),
        is_listing(
            here_listing,
            set_commands(commands, alias, Some(command)),
            set_scopes(scopes, alias, true, cwd),
            false,
            dir,
        ),
    ensures
        set_scopes(scopes, alias, true, cwd)[alias] == cwd,
        exists|i: int| 0 <= i < all_listing.len() && (#[trigger] all_listing[i]@).1 == alias,
        (exists|i: int| 0 <= i < here_listing.len() && (#[trigger] here_listing[i]@).1 == alias)
            <==> (cwd.len() == 0 || is_prefix(components_of(cwd), components_of(dir))),
{
    let cmds = set_commands(commands, alias, Some(command));
    let scs = set_scopes(scopes, alias, true, cwd);
    assert(cmds.contains_key(alias));
    assert(scope_of(scs, alias) == cwd);
    assert(visible(true, dir, cwd));
    if exists|i: int| 0 <= i < here_listing.len() && (#[trigger] here_listing[i]@).1 == alias {
        let i = choose|i: int| 0 <= i < here_listing.len() && (#[trigger] here_listing[i]@).1 == alias;
        assert(listed(cmds, scs, false, dir, here_listing[i]@));
    }
}

/// Renaming an existing alias to a free one leaves the source absent, binds
/// the destination to the source's former command, and keeps every other
/// alias as it was.
pub proof fn law_rename_moves(
    commands: Map<Seq<char>, Seq<char>>,
    source: Seq<char>,
    destination: Seq<char>,
)
    requires
        commands.contains_key(source),
        !commands.contains_key(destination),
    ensures
        !renamed(commands, source, destination).contains_key(source),
        renamed(commands, source, destination).contains_key(destination),
        renamed(commands, source, destination)[destination] == commands[source],
        forall|a: Seq<char>|
            a != source && a != destination ==> (#[trigger] renamed(
                commands,
                source,
                destination,
            ).contains_key(a) == commands.contains_key(a) && (commands.contains_key(a) ==> renamed(
                commands,
                source,
                destination,
            )[a] == commands[a])),
{
}

/// Storing a registry's tables and reading them back gives the same commands
/// and the same scopes.
pub proof fn law_tables_round_trip(registry: Registry, commands: Seq<Row>, scopes: Seq<Row>)
    requires
        registry.wf(),
        keys_unique(commands),
        keys_unique(scopes),
        table_map(commands) == registry.commands(),
        table_map(scopes) == registry.scopes(),
    ensures
        pairs_map(commands) == registry.commands(),
        pairs_map(scopes) == registry.scopes(),
{
    lemma_pairs_map_of_table(commands);
    lemma_pairs_map_of_table(scopes);
}

} // verus!
