//! The co-author command: one invocation may delete a co-author, list the
//! store, and add a co-author, in that fixed order. The command writes
//! line-oriented text; both streams are carried as vectors of lines.

use vstd::prelude::*;

use crate::coauthor_repo::CoauthorRepo;
use crate::coauthor_repo::Entries;
use crate::coauthor_repo::has_key;
use crate::coauthor_repo::key_index;
use crate::coauthor_repo::keys_distinct;
use crate::coauthor_repo::lemma_remove_key;
use crate::coauthor_repo::lemma_upsert;
use crate::coauthor_repo::remove_key;
use crate::coauthor_repo::render_entry;
use crate::coauthor_repo::upsert;
use crate::coauthor_repo::value_of;

verus! {

/// The identity string stored and echoed for a co-author: `name <email>`.
pub open spec fn identity_of(name: Seq<char>, email: Seq<char>) -> Seq<char> {
    name + " <"@ + email + ">"@
}

/// The line reported when a delete names an absent key.
pub open spec fn not_found_line(key: Seq<char>) -> Seq<char> {
    "No co-author found with key: "@ + key
}

/// The co-author command. Each field is an independently optional input;
/// any subset may be requested in one invocation.
pub struct Coauthor {
    /// Key, name and email of a co-author to add; exactly three values are
    /// expected whenever an add is requested.
    pub add: Option<Vec<String>>,
    /// Key of a co-author to delete.
    pub delete: Option<String>,
    /// Whether to list every stored co-author.
    pub list: bool,
}

/// Whether the command carries a well-formed add request.
pub open spec fn add_requested(cmd: Coauthor) -> bool {
    cmd.add is Some && cmd.add.unwrap()@.len() == 3
}

/// The key of the add request.
pub open spec fn add_key(cmd: Coauthor) -> Seq<char> {
    cmd.add.unwrap()@[0]@
}

/// The identity formatted from the add request's name and email.
pub open spec fn add_identity(cmd: Coauthor) -> Seq<char> {
    identity_of(cmd.add.unwrap()@[1]@, cmd.add.unwrap()@[2]@)
}

/// The store after the delete phase of one invocation.
pub open spec fn entries_after_delete(cmd: Coauthor, es: Entries) -> Entries {
    if cmd.delete is Some {
        remove_key(es, cmd.delete.unwrap()@)
    } else {
        es
    }
}

/// The store after one whole invocation: the delete runs first, the add last.
pub open spec fn entries_after(cmd: Coauthor, es: Entries) -> Entries {
    let es1 = entries_after_delete(cmd, es);
    if add_requested(cmd) {
        upsert(es1, add_key(cmd), add_identity(cmd))
    } else {
        es1
    }
}

/// The lines one invocation writes to the error stream: the not-found line
/// when the delete names an absent key, nothing otherwise.
pub open spec fn err_lines(cmd: Coauthor, es: Entries) -> Seq<Seq<char>> {
    if cmd.delete is Some && !has_key(es, cmd.delete.unwrap()@) {
        seq![not_found_line(cmd.delete.unwrap()@)]
    } else {
        Seq::empty()
    }
}

/// The lines one invocation writes to the output stream: the listing of the
/// store as the delete phase left it, then the identity echoed by the add.
pub open spec fn out_lines(cmd: Coauthor, es: Entries) -> Seq<Seq<char>> {
    let es1 = entries_after_delete(cmd, es);
    let listed: Seq<Seq<char>> = if cmd.list {
        Seq::new(es1.len(), |i: int| render_entry(es1[i], true))
    } else {
        Seq::empty()
    };
    let added: Seq<Seq<char>> = if add_requested(cmd) {
        seq![add_identity(cmd)]
    } else {
        Seq::empty()
    };
    listed + added
}

impl Coauthor {
    /// Runs the operations the command carries against `coauthor_repo`, in
    /// the fixed order delete, list, add, appending each written line to
    /// `out` or `err`.
    pub fn handle<R: CoauthorRepo>(
        &self,
        coauthor_repo: &mut R,
        out: &mut Vec<String>,
        err: &mut Vec<String>,
    )
        requires
            keys_distinct(old(coauthor_repo).entries()),
        ensures
            final(coauthor_repo).entries() == entries_after(
                *self,
                old(coauthor_repo).entries(),
            ),
            keys_distinct(final(coauthor_repo).entries()),
            final(out).deep_view() == old(out).deep_view() + out_lines(
                *self,
                old(coauthor_repo).entries(),
            ),
            final(err).deep_view() == old(err).deep_view() + err_lines(
                *self,
                old(coauthor_repo).entries(),
            ),
    {
        let ghost es0 = coauthor_repo.entries();
        let ghost out0 = out.deep_view();
        let ghost err0 = err.deep_view();
        if let Some(key) = &self.delete {
            match coauthor_repo.get(key.as_str()) {
                Some(_) => coauthor_repo.remove(key.as_str()),
                None => {
                    proof {
                        lemma_remove_key(es0, key@);
                    }
                    let mut line: String = String::from_str("No co-author found with key: ");
                    line.append(key.as_str());
                    err.push(line);
                },
            }
        }
        assert(coauthor_repo.entries() == entries_after_delete(*self, es0));
        assert(keys_distinct(coauthor_repo.entries())) by {
            if self.delete is Some {
                lemma_remove_key(es0, self.delete.unwrap()@);
            }
        }
        assert(err.deep_view() =~= err0 + err_lines(*self, es0));
        let ghost es1 = coauthor_repo.entries();
        if self.list {
            let mut coauthors = coauthor_repo.list(true);
            out.append(&mut coauthors);
        }
        assert(out.deep_view() =~= out0 + if self.list {
            Seq::new(es1.len(), |i: int| render_entry(es1[i], true))
        } else {
            Seq::empty()
        });
        let ghost out1 = out.deep_view();
        if let Some(triple) = &self.add {
            if triple.len() == 3 {
                let name: &String = &triple[1];
                let email: &String = &triple[2];
                let mut coauthor: String = name.clone();
                coauthor.append(" <");
                coauthor.append(email.as_str());
                coauthor.append(">");
                assert(coauthor@ == add_identity(*self));
                coauthor_repo.add(triple[0].as_str(), coauthor.as_str());
                out.push(coauthor);
            }
        }
        assert(coauthor_repo.entries() == entries_after(*self, es0));
        assert(out.deep_view() =~= out1 + if add_requested(*self) {
            seq![add_identity(*self)]
        } else {
            Seq::<Seq<char>>::empty()
        });
        assert(out.deep_view() =~= out0 + out_lines(*self, es0));
    }
}

/// A delete naming a key absent from the store writes exactly the not-found
/// line to the error stream and leaves the store unchanged.
pub proof fn lemma_delete_missing_key(cmd: Coauthor, es: Entries)
    requires
        keys_distinct(es),
        cmd.delete is Some,
        !has_key(es, cmd.delete.unwrap()@),
    ensures
        err_lines(cmd, es) == seq![not_found_line(cmd.delete.unwrap()@)],
        entries_after_delete(cmd, es) == es,
{
    lemma_remove_key(es, cmd.delete.unwrap()@);
}

/// An invocation whose add gives (key, name, email) leaves the store holding
/// exactly `name <email>` under that key — also when the key already had an
/// identity: the new one overwrites it, nothing is merged.
pub proof fn lemma_add_stores_identity(cmd: Coauthor, es: Entries)
    requires
        keys_distinct(es),
        add_requested(cmd),
    ensures
        has_key(entries_after(cmd, es), add_key(cmd)),
        value_of(entries_after(cmd, es), add_key(cmd)) == add_identity(cmd),
        keys_distinct(entries_after(cmd, es)),
{
    if cmd.delete is Some {
        lemma_remove_key(es, cmd.delete.unwrap()@);
    }
    lemma_upsert(entries_after_delete(cmd, es), add_key(cmd), add_identity(cmd));
}

/// Writing twice under the same key keeps the second identity alone: the
/// store after both writes answers a lookup of that key with the second
/// value, and every other key is untouched.
pub proof fn lemma_second_add_wins(es: Entries, k: Seq<char>, v1: Seq<char>, v2: Seq<char>)
    requires
        keys_distinct(es),
    ensures
        has_key(upsert(upsert(es, k, v1), k, v2), k),
        value_of(upsert(upsert(es, k, v1), k, v2), k) == v2,
        forall|k2: Seq<char>|
            k2 != k ==> #[trigger] has_key(upsert(upsert(es, k, v1), k, v2), k2) == has_key(
                es,
                k2,
            ),
{
    lemma_upsert(es, k, v1);
    lemma_upsert(upsert(es, k, v1), k, v2);
}

/// An invocation that only adds writes exactly the one identity line to the
/// output stream and nothing to the error stream.
pub proof fn lemma_add_writes_one_line(cmd: Coauthor, es: Entries)
    requires
        add_requested(cmd),
        cmd.delete is None,
        !cmd.list,
    ensures
        out_lines(cmd, es) == seq![add_identity(cmd)],
        err_lines(cmd, es) == Seq::<Seq<char>>::empty(),
{
    assert(out_lines(cmd, es) =~= seq![add_identity(cmd)]);
}

/// An invocation that only lists writes one line per stored entry, each line
/// rendering its own entry — none duplicated or dropped — and in particular
/// no line at all for an empty store.
pub proof fn lemma_list_lines(cmd: Coauthor, es: Entries)
    requires
        keys_distinct(es),
        cmd.list,
        cmd.delete is None,
        !add_requested(cmd),
    ensures
        out_lines(cmd, es).len() == es.len(),
        forall|i: int|
            0 <= i < es.len() ==> #[trigger] out_lines(cmd, es)[i] == render_entry(es[i], true),
        forall|k: Seq<char>|
            #[trigger] has_key(es, k) ==> out_lines(cmd, es)[key_index(es, k)] == k + " "@
                + value_of(es, k),
        err_lines(cmd, es) == Seq::<Seq<char>>::empty(),
{
    assert forall|k: Seq<char>| #[trigger] has_key(es, k) implies out_lines(cmd, es)[key_index(
        es,
        k,
    )] == k + " "@ + value_of(es, k) by {
        let i = key_index(es, k);
        assert(0 <= i < es.len() && es[i].0 == k);
        assert(out_lines(cmd, es)[i] == render_entry(es[i], true));
    }
}

/// A delete of a present key leaves that key absent — a later get finds
/// nothing — and a second invocation deleting the same key reproduces the
/// not-found error line.
pub proof fn lemma_delete_then_delete(cmd: Coauthor, es: Entries)
    requires
        keys_distinct(es),
        cmd.delete is Some,
        has_key(es, cmd.delete.unwrap()@),
    ensures
        !has_key(entries_after_delete(cmd, es), cmd.delete.unwrap()@),
        keys_distinct(entries_after_delete(cmd, es)),
        err_lines(cmd, es) == Seq::<Seq<char>>::empty(),
        err_lines(cmd, entries_after_delete(cmd, es)) == seq![
            not_found_line(cmd.delete.unwrap()@),
        ],
{
    lemma_remove_key(es, cmd.delete.unwrap()@);
}

/// One invocation that deletes an absent key, lists, and adds under that same
/// key: the error stream gets the not-found line, the output stream first the
/// listing and then the echoed identity — the add is not suppressed by the
/// earlier not-found on the same key.
pub proof fn lemma_combined_invocation(cmd: Coauthor, es: Entries)
    requires
        keys_distinct(es),
        cmd.delete is Some,
        !has_key(es, cmd.delete.unwrap()@),
        cmd.list,
        add_requested(cmd),
    ensures
        err_lines(cmd, es) == seq![not_found_line(cmd.delete.unwrap()@)],
        out_lines(cmd, es).len() == es.len() + 1,
        forall|i: int|
            0 <= i < es.len() ==> #[trigger] out_lines(cmd, es)[i] == render_entry(es[i], true),
        out_lines(cmd, es)[es.len() as int] == add_identity(cmd),
        has_key(entries_after(cmd, es), add_key(cmd)),
        value_of(entries_after(cmd, es), add_key(cmd)) == add_identity(cmd),
{
    lemma_remove_key(es, cmd.delete.unwrap()@);
    lemma_upsert(es, add_key(cmd), add_identity(cmd));
}

} // verus!
