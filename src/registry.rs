//! The alias registry: a map from alias to command text and a map from alias
//! to the directory that scopes it, with the rules for saving, deleting,
//! renaming, resolving and listing aliases.

use vstd::prelude::*;

use crate::table::{
    copy_table, delete, keys_unique, lemma_rows_in_map, lookup, pairs_map, put, table_from_pairs,
    table_map, Row,
};
use crate::path::{
    components_of, is_prefix, lemma_parts_lt_irreflexive, lemma_parts_lt_total,
    lemma_parts_lt_transitive, parts_equal, parts_less, parts_lt, parts_prefix, parts_view,
    path_parts, PathPart,
};
use crate::text::{
    is_blank, lemma_text_lt_irreflexive, lemma_text_lt_total, lemma_text_lt_transitive, text_less, text_lt,
    trim_text, trimmed,
};

verus! {

/// Aliases with their commands and scopes.
pub struct Registry {
    commands: Vec<Row>,
    scopes: Vec<Row>,
}

/// What saving or deleting an alias did.
pub struct SetReport {
    /// The command bound to the alias before the call, if any.
    pub previous: Option<String>,
    /// The command bound to the alias after the call, if any.
    pub current: Option<String>,
    /// The alias's recorded scope before and after the call, when it changed.
    pub scope_change: Option<(Option<String>, String)>,
}

/// What an attempt to rename an alias did.
pub enum RenameOutcome {
    /// The source alias does not exist; nothing changed.
    Missing,
    /// The destination already holds this command; nothing changed.
    Taken(String),
    /// The command moved from the source to the destination.
    Moved(String),
}

/// One line of a listing: the alias's scope (empty when unscoped), the alias
/// and its command.
pub struct ListEntry {
    pub scope: String,
    pub alias: String,
    pub command: String,
}

impl View for ListEntry {
    type V = (Seq<char>, Seq<char>, Seq<char>);

    open spec fn view(&self) -> (Seq<char>, Seq<char>, Seq<char>) {
        (self.scope@, self.alias@, self.command@)
    }
}

/// The view of an optional text.
pub open spec fn opt_view(t: Option<String>) -> Option<Seq<char>> {
    match t {
        Some(s) => Some(s@),
        None => None,
    }
}

/// The commands after binding `alias` to already trimmed text: an empty or
/// absent text removes the alias.
pub open spec fn stored_commands(
    commands: Map<Seq<char>, Seq<char>>,
    alias: Seq<char>,
    text: Option<Seq<char>>,
) -> Map<Seq<char>, Seq<char>> {
    match text {
        Some(t) => if t.len() > 0 {
            commands.insert(alias, t)
        } else {
            commands.remove(alias)
        },
        None => commands.remove(alias),
    }
}

/// The commands after saving `command` under `alias`: the command is trimmed,
/// and one that trims to nothing, or none at all, deletes the alias.
pub open spec fn set_commands(
    commands: Map<Seq<char>, Seq<char>>,
    alias: Seq<char>,
    command: Option<Seq<char>>,
) -> Map<Seq<char>, Seq<char>> {
    match command {
        Some(c) => stored_commands(commands, alias, Some(trimmed(c))),
        None => stored_commands(commands, alias, None),
    }
}

/// The scope an alias gets: the working directory when bound locally, else
/// the empty text that stands for no scope.
pub open spec fn scope_for(local: bool, cwd: Seq<char>) -> Seq<char> {
    if local {
        cwd
    } else {
        Seq::empty()
    }
}

/// The scopes after saving or deleting `alias`. The scope is recorded on
/// every call, deletions included: deleting an alias does not drop its scope
/// entry, so a scope may stand for an alias that has no command (deleting
/// with `local` even records a non-empty one). A later save records its own
/// scope over it.
pub open spec fn set_scopes(
    scopes: Map<Seq<char>, Seq<char>>,
    alias: Seq<char>,
    local: bool,
    cwd: Seq<char>,
) -> Map<Seq<char>, Seq<char>> {
    scopes.insert(alias, scope_for(local, cwd))
}

/// The commands after renaming `source` to `destination`, where the first
/// exists and the second does not.
pub open spec fn renamed(
    commands: Map<Seq<char>, Seq<char>>,
    source: Seq<char>,
    destination: Seq<char>,
) -> Map<Seq<char>, Seq<char>> {
    commands.remove(source).insert(destination, commands[source])
}

/// The scope of an alias: its recorded scope, or empty when none is recorded.
pub open spec fn scope_of(scopes: Map<Seq<char>, Seq<char>>, alias: Seq<char>) -> Seq<char> {
    if scopes.contains_key(alias) {
        scopes[alias]
    } else {
        Seq::empty()
    }
}

/// Whether an alias with this scope is shown from `cwd`: always when all are
/// asked for or the alias is unscoped, else when the components of the scope
/// begin those of `cwd`.
pub open spec fn visible(all: bool, cwd: Seq<char>, scope: Seq<char>) -> bool {
    all || scope.len() == 0 || is_prefix(components_of(scope), components_of(cwd))
}

/// Listing order: by scope compared as a path, component by component, then
/// by alias, then by command.
pub open spec fn entry_lt(
    a: (Seq<char>, Seq<char>, Seq<char>),
    b: (Seq<char>, Seq<char>, Seq<char>),
) -> bool {
    let pa = components_of(a.0);
    let pb = components_of(b.0);
    parts_lt(pa, pb) || (pa == pb && (text_lt(a.1, b.1) || (a.1 == b.1 && text_lt(a.2, b.2))))
}

/// Each entry comes strictly before the ones after it.
pub open spec fn strictly_sorted(s: Seq<ListEntry>) -> bool {
    forall|i: int, j: int| 0 <= i < j < s.len() ==> entry_lt(#[trigger] s[i]@, #[trigger] s[j]@)
}

/// The entry is a visible alias with its command and scope.
pub open spec fn listed(
    commands: Map<Seq<char>, Seq<char>>,
    scopes: Map<Seq<char>, Seq<char>>,
    all: bool,
    cwd: Seq<char>,
    e: (Seq<char>, Seq<char>, Seq<char>),
) -> bool {
    &&& commands.contains_key(e.1)
    &&& commands[e.1] == e.2
    &&& e.0 == scope_of(scopes, e.1)
    &&& visible(all, cwd, e.0)
}

/// `s` is the listing of the registry from `cwd`: every visible alias once,
/// nothing else, in listing order.
pub open spec fn is_listing(
    s: Seq<ListEntry>,
    commands: Map<Seq<char>, Seq<char>>,
    scopes: Map<Seq<char>, Seq<char>>,
    all: bool,
    cwd: Seq<char>,
) -> bool {
    &&& strictly_sorted(s)
    &&& forall|i: int| 0 <= i < s.len() ==> listed(commands, scopes, all, cwd, #[trigger] s[i]@)
    &&& forall|a: Seq<char>|
        commands.contains_key(a) && visible(all, cwd, scope_of(scopes, a)) ==> exists|i: int|
            0 <= i < s.len() && (#[trigger] s[i]@).1 == a
}

/// The listing order is irreflexive.
pub proof fn lemma_entry_lt_irreflexive(a: (Seq<char>, Seq<char>, Seq<char>))
    ensures
        !entry_lt(a, a),
{
    lemma_parts_lt_irreflexive(components_of(a.0));
    lemma_text_lt_irreflexive(a.1);
    lemma_text_lt_irreflexive(a.2);
}

/// Two entries for distinct aliases are ordered one way or the other.
pub proof fn lemma_entry_lt_total(
    a: (Seq<char>, Seq<char>, Seq<char>),
    b: (Seq<char>, Seq<char>, Seq<char>),
)
    requires
        a.1 != b.1,
    ensures
        entry_lt(a, b) || entry_lt(b, a),
{
    if components_of(a.0) != components_of(b.0) {
        lemma_parts_lt_total(components_of(a.0), components_of(b.0));
    } else {
        lemma_text_lt_total(a.1, b.1);
    }
}

/// The listing order is transitive.
pub proof fn lemma_entry_lt_transitive(
    a: (Seq<char>, Seq<char>, Seq<char>),
    b: (Seq<char>, Seq<char>, Seq<char>),
    c: (Seq<char>, Seq<char>, Seq<char>),
)
    requires
        entry_lt(a, b),
        entry_lt(b, c),
    ensures
        entry_lt(a, c),
{
    let pa = components_of(a.0);
    let pb = components_of(b.0);
    let pc = components_of(c.0);
    if parts_lt(pa, pb) && parts_lt(pb, pc) {
        lemma_parts_lt_transitive(pa, pb, pc);
    } else if pa == pb && pb == pc {
        if text_lt(a.1, b.1) && text_lt(b.1, c.1) {
            lemma_text_lt_transitive(a.1, b.1, c.1);
        } else if a.1 == b.1 && b.1 == c.1 {
            lemma_text_lt_transitive(a.2, b.2, c.2);
        }
    }
}

/// A listing entry together with the components of its scope.
struct Keyed {
    parts: Vec<PathPart>,
    entry: ListEntry,
}

/// The components are those of the entry's scope.
spec fn keyed_ok(k: Keyed) -> bool {
    parts_view(k.parts@) == components_of(k.entry.scope@)
}

/// Each entry comes strictly before the ones after it.
spec fn keyed_sorted(s: Seq<Keyed>) -> bool {
    forall|i: int, j: int|
        0 <= i < j < s.len() ==> entry_lt(#[trigger] s[i].entry@, #[trigger] s[j].entry@)
}

/// Whether `a` comes before `b` in a listing.
fn entry_less(a: &Keyed, b: &Keyed) -> (r: bool)
    requires
        keyed_ok(*a),
        keyed_ok(*b),
    ensures
        r == entry_lt(a.entry@, b.entry@),
{
    proof {
        lemma_parts_lt_irreflexive(components_of(a.entry.scope@));
        lemma_text_lt_irreflexive(a.entry.alias@);
    }
    if !parts_equal(&a.parts, &b.parts) {
        parts_less(&a.parts, &b.parts)
    } else if !(a.entry.alias == b.entry.alias) {
        text_less(a.entry.alias.as_str(), b.entry.alias.as_str())
    } else {
        text_less(a.entry.command.as_str(), b.entry.command.as_str())
    }
}

/// Inserts `e` into a sorted listing at its place.
fn insert_sorted(out: &mut Vec<Keyed>, e: Keyed) -> (p: usize)
    requires
        keyed_sorted(old(out)@),
        keyed_ok(e),
        forall|k: int| 0 <= k < old(out)@.len() ==> keyed_ok(#[trigger] old(out)@[k]),
        forall|k: int| 0 <= k < old(out)@.len() ==> (#[trigger] old(out)@[k]).entry@.1 != e.entry@.1,
    ensures
        p <= old(out)@.len(),
        final(out)@ == old(out)@.insert(p as int, e),
        keyed_sorted(final(out)@),
{
    let mut p: usize = 0;
    while p < out.len()
        invariant
            p <= out@.len(),
            out@ == old(out)@,
            keyed_ok(e),
            forall|k: int| 0 <= k < out@.len() ==> keyed_ok(#[trigger] out@[k]),
            forall|k: int| 0 <= k < out@.len() ==> (#[trigger] out@[k]).entry@.1 != e.entry@.1,
            forall|k: int| 0 <= k < p ==> entry_lt((#[trigger] out@[k]).entry@, e.entry@),
        ensures
            p <= out@.len(),
            out@ == old(out)@,
            forall|k: int| 0 <= k < p ==> entry_lt((#[trigger] out@[k]).entry@, e.entry@),
            p < out@.len() ==> entry_lt(e.entry@, out@[p as int].entry@),
        decreases out@.len() - p,
    {
        if entry_less(&e, &out[p]) {
            break;
        }
        proof {
            lemma_entry_lt_total(out@[p as int].entry@, e.entry@);
        }
        p = p + 1;
    }
    let ghost before = out@;
    let ghost ev = e.entry@;
    out.insert(p, e);
    proof {
        let after = out@;
        assert forall|i: int, j: int| 0 <= i < j < after.len() implies entry_lt(
            #[trigger] after[i].entry@,
            #[trigger] after[j].entry@,
        ) by {
            if j < p {
                assert(after[i] == before[i] && after[j] == before[j]);
            } else if j == p {
                assert(after[i] == before[i]);
            } else if i < p {
                assert(after[i] == before[i] && after[j] == before[j - 1]);
            } else if i == p {
                assert(after[j] == before[j - 1]);
                if j - 1 > p {
                    lemma_entry_lt_transitive(ev, before[p as int].entry@, before[j - 1].entry@);
                }
            } else {
                assert(after[i] == before[i - 1] && after[j] == before[j - 1]);
            }
        }
    }
    p
}

impl Registry {
    /// Both tables hold distinct keys.
    pub closed spec fn wf(&self) -> bool {
        keys_unique(self.commands@) && keys_unique(self.scopes@)
    }

    /// The command bound to each alias.
    pub closed spec fn commands(&self) -> Map<Seq<char>, Seq<char>> {
        table_map(self.commands@)
    }

    /// The scope recorded for each alias.
    pub closed spec fn scopes(&self) -> Map<Seq<char>, Seq<char>> {
        table_map(self.scopes@)
    }

    /// A registry with no aliases.
    pub fn new() -> (r: Registry)
        ensures
            r.wf(),
            r.commands() == Map::<Seq<char>, Seq<char>>::empty(),
            r.scopes() == Map::<Seq<char>, Seq<char>>::empty(),
    {
        let r = Registry { commands: Vec::new(), scopes: Vec::new() };
        assert(r.commands() =~= Map::<Seq<char>, Seq<char>>::empty());
        assert(r.scopes() =~= Map::<Seq<char>, Seq<char>>::empty());
        r
    }

    /// The command bound to `alias`, if any: what running the alias executes.
    pub fn resolve(&self, alias: &String) -> (r: Option<String>)
        requires
            self.wf(),
        ensures
            opt_view(r) == (if self.commands().contains_key(alias@) {
                Some(self.commands()[alias@])
            } else {
                None
            }),
    {
        lookup(&self.commands, alias)
    }

    /// The text an editor starts from for `alias`: its command, or empty text
    /// for a new alias.
    pub fn current_text(&self, alias: &String) -> (r: String)
        requires
            self.wf(),
        ensures
            r@ == (if self.commands().contains_key(alias@) {
                self.commands()[alias@]
            } else {
                Seq::<char>::empty()
            }),
    {
        match lookup(&self.commands, alias) {
            Some(c) => c,
            None => String::new(),
        }
    }

    /// Binds `alias` to `text`, which is taken as already trimmed: an empty or
    /// absent text deletes the alias. The alias's scope becomes `cwd` when
    /// `local`, else the empty scope.
    pub fn store(&mut self, alias: String, text: Option<String>, local: bool, cwd: &String) -> (r:
        SetReport)
        requires
            old(self).wf(),
        ensures
            final(self).wf(),
            final(self).commands() == stored_commands(old(self).commands(), alias@, opt_view(text)),
            final(self).scopes() == set_scopes(old(self).scopes(), alias@, local, cwd@),
            opt_view(r.previous) == (if old(self).commands().contains_key(alias@) {
                Some(old(self).commands()[alias@])
            } else {
                None
            }),
            opt_view(r.current) == (if final(self).commands().contains_key(alias@) {
                Some(final(self).commands()[alias@])
            } else {
                None
            }),
            (r.scope_change is None) == (old(self).scopes().contains_key(alias@)
                && old(self).scopes()[alias@] == scope_for(local, cwd@)),
            r.scope_change matches Some(c) ==> opt_view(c.0) == (if old(self).scopes().contains_key(
                alias@,
            ) {
                Some(old(self).scopes()[alias@])
            } else {
                None
            }) && c.1@ == scope_for(local, cwd@),
    {
        let previous = lookup(&self.commands, &alias);
        let current = match text {
            Some(t) => if t.as_str().is_empty() {
                None
            } else {
                Some(t)
            },
            None => None,
        };
        match &current {
            Some(t) => put(&mut self.commands, alias.clone(), t.clone()),
            None => delete(&mut self.commands, &alias),
        }
        let old_scope = lookup(&self.scopes, &alias);
        let new_scope = if local {
            cwd.clone()
        } else {
            String::new()
        };
        let unchanged = match &old_scope {
            Some(s) => *s == new_scope,
            None => false,
        };
        let scope_change = if unchanged {
            None
        } else {
            Some((old_scope, new_scope.clone()))
        };
        put(&mut self.scopes, alias, new_scope);
        SetReport { previous, current, scope_change }
    }

    /// Saves `command` under `alias`, or deletes the alias when the command is
    /// absent or trims to nothing; the stored command is trimmed. The alias's
    /// scope becomes `cwd` when `local`, else the empty scope, also when the
    /// alias is deleted: its scope entry is kept, not removed.
    pub fn set(&mut self, alias: String, command: Option<String>, local: bool, cwd: &String) -> (r:
        SetReport)
        requires
            old(self).wf(),
        ensures
            final(self).wf(),
            final(self).commands() == set_commands(old(self).commands(), alias@, opt_view(command)),
            final(self).scopes() == set_scopes(old(self).scopes(), alias@, local, cwd@),
            opt_view(r.previous) == (if old(self).commands().contains_key(alias@) {
                Some(old(self).commands()[alias@])
            } else {
                None
            }),
            opt_view(r.current) == (if final(self).commands().contains_key(alias@) {
                Some(final(self).commands()[alias@])
            } else {
                None
            }),
            (r.scope_change is None) == (old(self).scopes().contains_key(alias@)
                && old(self).scopes()[alias@] == scope_for(local, cwd@)),
            r.scope_change matches Some(c) ==> opt_view(c.0) == (if old(self).scopes().contains_key(
                alias@,
            ) {
                Some(old(self).scopes()[alias@])
            } else {
                None
            }) && c.1@ == scope_for(local, cwd@),
            command matches Some(c) && is_blank(c@) ==> final(self).commands() == old(
                self,
            ).commands().remove(alias@),
    {
        let text = match command {
            Some(c) => Some(trim_text(c.as_str())),
            None => None,
        };
        self.store(alias, text, local, cwd)
    }

    /// Renames `source` to `destination`. Nothing changes when `source` does
    /// not exist, or when `destination` already does, whose command is then
    /// reported. Scopes are not moved.
    pub fn rename(&mut self, source: &String, destination: String) -> (r: RenameOutcome)
        requires
            old(self).wf(),
        ensures
            final(self).wf(),
            final(self).scopes() == old(self).scopes(),
            !old(self).commands().contains_key(source@) ==> r is Missing && final(self).commands()
                == old(self).commands(),
            old(self).commands().contains_key(source@) && old(self).commands().contains_key(
                destination@,
            ) ==> (r matches RenameOutcome::Taken(v) && v@ == old(self).commands()[destination@])
                && final(self).commands() == old(self).commands(),
            old(self).commands().contains_key(source@) && !old(self).commands().contains_key(
                destination@,
            ) ==> (r matches RenameOutcome::Moved(c) && c@ == old(self).commands()[source@])
                && final(self).commands() == renamed(old(self).commands(), source@, destination@),
    {
        let command = match lookup(&self.commands, source) {
            Some(c) => c,
            None => {
                return RenameOutcome::Missing;
            },
        };
        if let Some(existing) = lookup(&self.commands, &destination) {
            return RenameOutcome::Taken(existing);
        }
        delete(&mut self.commands, source);
        put(&mut self.commands, destination, command.clone());
        RenameOutcome::Moved(command)
    }

    /// The aliases shown from `cwd`, sorted by scope (as a path, component by
    /// component), alias and command: all of them when `all`, else the
    /// unscoped ones and those whose scope `cwd` lies within.
    pub fn list(&self, all: bool, cwd: &String) -> (r: Vec<ListEntry>)
        requires
            self.wf(),
        ensures
            is_listing(r@, self.commands(), self.scopes(), all, cwd@),
    {
        let ghost rows = self.commands@;
        let ghost cmds = self.commands();
        let ghost scopes = self.scopes();
        proof {
            lemma_rows_in_map(rows);
        }
        let cwd_parts = path_parts(cwd.as_str());
        let mut keyed: Vec<Keyed> = Vec::new();
        let mut i: usize = 0;
        while i < self.commands.len()
            invariant
                self.wf(),
                rows == self.commands@,
                cmds == self.commands(),
                scopes == self.scopes(),
                parts_view(cwd_parts@) == components_of(cwd@),
                forall|j: int|
                    0 <= j < rows.len() ==> cmds.contains_key(#[trigger] rows[j].0@) && cmds[rows[j].0@]
                        == rows[j].1@,
                i <= rows.len(),
                keyed_sorted(keyed@),
                forall|k: int| 0 <= k < keyed@.len() ==> keyed_ok(#[trigger] keyed@[k]),
                forall|k: int|
                    0 <= k < keyed@.len() ==> listed(cmds, scopes, all, cwd@, (#[trigger] keyed@[k]).entry@),
                forall|k: int|
                    0 <= k < keyed@.len() ==> exists|j: int|
                        0 <= j < i && #[trigger] rows[j].0@ == (#[trigger] keyed@[k]).entry@.1,
                forall|j: int|
                    0 <= j < i && visible(all, cwd@, scope_of(scopes, #[trigger] rows[j].0@)) ==> exists|k: int|
                        0 <= k < keyed@.len() && (#[trigger] keyed@[k]).entry@.1 == rows[j].0@,
            decreases rows.len() - i,
        {
            let alias = &self.commands[i].0;
            let command = &self.commands[i].1;
            let scope = match lookup(&self.scopes, alias) {
                Some(s) => s,
                None => String::new(),
            };
            let parts = path_parts(scope.as_str());
            let shown = all || scope.as_str().is_empty() || parts_prefix(&parts, &cwd_parts);
            if shown {
                let e = Keyed {
                    parts,
                    entry: ListEntry { scope, alias: alias.clone(), command: command.clone() },
                };
                let ghost ev = e.entry@;
                let ghost before = keyed@;
                proof {
                    assert forall|k: int| 0 <= k < before.len() implies (#[trigger] before[k]).entry@.1 != ev.1 by {
                        let j = choose|j: int| 0 <= j < i && #[trigger] rows[j].0@ == before[k].entry@.1;
                        assert(rows[j].0@ != rows[i as int].0@);
                    }
                }
                let p = insert_sorted(&mut keyed, e);
                proof {
                    let after = keyed@;
                    assert forall|k: int| 0 <= k < after.len() implies keyed_ok(#[trigger] after[k])
                        && listed(cmds, scopes, all, cwd@, after[k].entry@)
                        && exists|j: int| 0 <= j < i + 1 && #[trigger] rows[j].0@ == after[k].entry@.1 by {
                        if k < p {
                            assert(after[k] == before[k]);
                        } else if k == p {
                            assert(after[k].entry@ == ev);
                            assert(rows[i as int].0@ == after[k].entry@.1);
                        } else {
                            assert(after[k] == before[k - 1]);
                        }
                    }
                    assert forall|j: int|
                        0 <= j < i + 1 && visible(all, cwd@, scope_of(scopes, #[trigger] rows[j].0@)) implies exists|k: int|
                            0 <= k < after.len() && (#[trigger] after[k]).entry@.1 == rows[j].0@ by {
                        if j == i {
                            assert(after[p as int].entry@ == ev);
                        } else {
                            let k = choose|k: int| 0 <= k < before.len() && (#[trigger] before[k]).entry@.1 == rows[j].0@;
                            if k < p {
                                assert(after[k] == before[k]);
                            } else {
                                assert(after[k + 1] == before[k]);
                            }
                        }
                    }
                }
            }
            i = i + 1;
        }
        let mut out: Vec<ListEntry> = Vec::new();
        let mut k: usize = 0;
        while k < keyed.len()
            invariant
                k <= keyed@.len(),
                out@.len() == k,
                forall|m: int| 0 <= m < k ==> (#[trigger] out@[m])@ == keyed@[m].entry@,
            decreases keyed@.len() - k,
        {
            let e = &keyed[k].entry;
            out.push(ListEntry { scope: e.scope.clone(), alias: e.alias.clone(), command: e.command.clone() });
            k = k + 1;
        }
        proof {
            assert forall|a: Seq<char>|
                cmds.contains_key(a) && visible(all, cwd@, scope_of(scopes, a)) implies exists|m: int|
                    0 <= m < out@.len() && (#[trigger] out@[m]@).1 == a by {
                let j = choose|j: int| 0 <= j < rows.len() && #[trigger] rows[j].0@ == a;
                assert(rows[j].0@ == a);
                let m = choose|m: int| 0 <= m < keyed@.len() && (#[trigger] keyed@[m]).entry@.1 == rows[j].0@;
                assert(out@[m]@ == keyed@[m].entry@);
            }
            assert forall|m: int| 0 <= m < out@.len() implies listed(cmds, scopes, all, cwd@, #[trigger] out@[m]@) by {
                assert(out@[m]@ == keyed@[m].entry@);
            }
            assert forall|x: int, y: int| 0 <= x < y < out@.len() implies entry_lt(#[trigger] out@[x]@, #[trigger] out@[y]@) by {
                assert(out@[x]@ == keyed@[x].entry@);
                assert(out@[y]@ == keyed@[y].entry@);
            }
        }
        out
    }

    /// A registry read back from its two stored tables, `(alias, command)`
    /// and `(alias, scope)` pairs; a later pair for an alias overrides an
    /// earlier one.
    pub fn from_tables(commands: Vec<Row>, scopes: Vec<Row>) -> (r: Registry)
        ensures
            r.wf(),
            r.commands() == pairs_map(commands@),
            r.scopes() == pairs_map(scopes@),
    {
        Registry { commands: table_from_pairs(commands), scopes: table_from_pairs(scopes) }
    }

    /// The two tables to store: `(alias, command)` pairs and `(alias, scope)`
    /// pairs, each alias once.
    pub fn to_tables(&self) -> (r: (Vec<Row>, Vec<Row>))
        requires
            self.wf(),
        ensures
            keys_unique(r.0@),
            keys_unique(r.1@),
            table_map(r.0@) == self.commands(),
            table_map(r.1@) == self.scopes(),
    {
        let commands = copy_table(&self.commands);
        let scopes = copy_table(&self.scopes);
        assert(commands@ =~= self.commands@);
        assert(scopes@ =~= self.scopes@);
        (commands, scopes)
    }
}

} // verus!
