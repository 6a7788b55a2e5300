//! What a change leaves behind: the commit on top of the head, and all that is
//! needed to take it in.

use vstd::prelude::*;
use vstd::utf8::{decode_utf8, encode_utf8};

use crate::bytes::text;
use crate::git::entry::{EntryModel, tree_mode};
use crate::git::lists::TargetModel;
use crate::git::objects::{
    apart, child_tree, entry_of, found, object_reached, tree_chain, tree_reached, utf8_names,
};
use crate::git::packfile::{OBJ_COMMIT, object_id, unpacked};
use crate::git::repo::{
    EditModel, PendingModel, PlanModel, Progress, RemoteModel, RepoError, RepoModel, batch_holds,
    changes_of, fresh_repo, kept_with, lemma_pruned_keeps, parted, stays, unseen,
};
use crate::git_bridge::fresh_bridge;
use crate::outside::{commit_text, commit_tree, hex_of, signed_decimal};
use crate::path::{RepoPath, components_of};

verus! {

// ---------------------------------------------------------------------------
// The commit
// ---------------------------------------------------------------------------

/// Who made a commit and when.
pub open spec fn made_by(name: Seq<u8>, email: Seq<u8>, seconds: int) -> Seq<u8> {
    name + text(" <") + email + text("> ") + signed_decimal(seconds) + text(" +0000\n")
}

/// A commit that names its tree in its first line and one parent in its
/// second; behind them stand author, committer and message.
pub open spec fn commit_reads(
    c: Seq<u8>,
    tree: Seq<u8>,
    parent: Seq<u8>,
    who: Seq<u8>,
    message: Seq<u8>,
) -> bool {
    &&& c.len() >= 94
    &&& c.subrange(0, 5) == text("tree ")
    &&& c.subrange(5, 45) == hex_of(tree)
    &&& c[45] == 10
    &&& c.subrange(46, 53) == text("parent ")
    &&& c.subrange(53, 93) == hex_of(parent)
    &&& c[93] == 10
    &&& c.skip(94) == text("author ") + who + text("committer ") + who + text("\n") + message
}

proof fn lemma_line_words()
    ensures
        text("tree ").len() == 5,
        text("parent ").len() == 7,
        text("\n") == seq![10u8],
{
    reveal_strlit("tree ");
    vstd::utf8::is_ascii_chars_encode_utf8("tree "@);
    reveal_strlit("parent ");
    vstd::utf8::is_ascii_chars_encode_utf8("parent "@);
    reveal_strlit("\n");
    vstd::utf8::is_ascii_chars_encode_utf8("\n"@);
    assert(text("\n") =~= seq![10u8]);
}

/// A commit with a parent reads so.
pub proof fn lemma_commit_reads(
    tree: Seq<u8>,
    parent: Seq<u8>,
    name: Seq<u8>,
    email: Seq<u8>,
    seconds: int,
    message: Seq<u8>,
)
    requires
        tree.len() == 20,
        parent.len() == 20,
    ensures
        commit_reads(
            commit_text(tree, Some(parent), name, email, seconds, message),
            tree,
            parent,
            made_by(name, email, seconds),
            message,
        ),
{
    lemma_line_words();
    let c = commit_text(tree, Some(parent), name, email, seconds, message);
    let who = made_by(name, email, seconds);
    let rest = text("author ") + who + text("committer ") + who + text("\n") + message;
    assert(hex_of(tree).len() == 40);
    assert(hex_of(parent).len() == 40);
    let front = text("tree ") + hex_of(tree) + text("\n") + text("parent ") + hex_of(parent) + text(
        "\n",
    );
    assert(front.len() == 94);
    assert(c =~= front + rest);
    assert(c.subrange(0, 5) =~= text("tree "));
    assert(c.subrange(5, 45) =~= hex_of(tree));
    assert(c.subrange(46, 53) =~= text("parent "));
    assert(c.subrange(53, 93) =~= hex_of(parent));
    assert(c.skip(94) =~= rest);
}

/// Every commit that is prepared has the head as its only parent, and the tree
/// that was planned: it is the last of the objects to push, and what is pushed
/// is known by its id.
pub proof fn lemma_commit_is_on_the_head(
    m: RepoModel,
    plan: Result<PlanModel, RepoError>,
    seconds: int,
    p: PendingModel,
)
    requires
        m.pending(plan, seconds) == Ok::<PendingModel, RepoError>(p),
        m.head matches Some(head) ==> head.len() == 20,
        plan matches Ok(x) ==> x.root.len() == 20,
    ensures
        match (m.head, plan) {
            (Some(head), Ok(x)) => {
                &&& p.objects.len() > 0
                &&& p.objects.last().0 == OBJ_COMMIT
                &&& p.commit == object_id(OBJ_COMMIT, p.objects.last().1)
                &&& commit_reads(
                    p.objects.last().1,
                    x.root,
                    head,
                    made_by(encode_utf8(m.author_name), encode_utf8(m.author_email), seconds),
                    encode_utf8(x.message),
                )
            },
            _ => false,
        },
{
    let x = plan->Ok_0;
    lemma_commit_reads(
        x.root,
        m.head->0,
        encode_utf8(m.author_name),
        encode_utf8(m.author_email),
        seconds,
        encode_utf8(x.message),
    );
}

// ---------------------------------------------------------------------------
// What is said about changes
// ---------------------------------------------------------------------------

/// What is said about a change names the path: for a file as it is, for a
/// directory, a copy or a move in quotes.
pub proof fn lemma_changes_are_told(
    m: RepoModel,
    path: Seq<u8>,
    dest: Seq<u8>,
    data: Seq<u8>,
    is_move: bool,
)
    ensures
        m.write_plan(path, data) matches Ok(x) ==> x.message == "update "@ + decode_utf8(path),
        m.delete_plan(path) matches Ok(x) ==> x.message == "delete "@ + decode_utf8(path),
        m.delete_subtree_plan(path) matches Ok(x) ==> x.message == "delete "@
            + crate::outside::path_debug(decode_utf8(path)),
        m.create_dir_plan(path) matches Ok(x) ==> x.message == "create dir "@
            + crate::outside::path_debug(decode_utf8(path)),
        m.transfer_plan(path, dest, true) matches Ok(x) ==> x.message == "move "@
            + crate::outside::path_debug(decode_utf8(path)) + " -> "@ + crate::outside::path_debug(
            decode_utf8(dest),
        ),
        m.transfer_plan(path, dest, false) matches Ok(x) ==> x.message == "copy "@
            + crate::outside::path_debug(decode_utf8(path)) + " -> "@ + crate::outside::path_debug(
            decode_utf8(dest),
        ),
{
}

// ---------------------------------------------------------------------------
// What is pushed
// ---------------------------------------------------------------------------

/// The object has a place in the list, under its id.
pub open spec fn is_listed(list: Seq<(u8, Seq<u8>)>, oid: Seq<u8>) -> bool {
    exists|i: int| 0 <= i < list.len() && object_id((#[trigger] list[i]).0, list[i].1) == oid
}

proof fn lemma_unseen_lists(list: Seq<(u8, Seq<u8>)>, seen: Set<Seq<u8>>, i: int)
    requires
        0 <= i < list.len(),
    ensures
        seen.contains(object_id(list[i].0, list[i].1)) || is_listed(
            unseen(list, seen),
            object_id(list[i].0, list[i].1),
        ),
    decreases list.len(),
{
    let rest = list.drop_first();
    let oid = object_id(list[0].0, list[0].1);
    let u = unseen(list, seen);
    if seen.contains(oid) {
        if i > 0 {
            lemma_unseen_lists(rest, seen, i - 1);
        }
    } else {
        let v = unseen(rest, seen.insert(oid));
        assert(u[0] == list[0]);
        assert forall|k: int| 0 <= k < v.len() implies u[k + 1] == v[k] by {}
        if i > 0 {
            lemma_unseen_lists(rest, seen.insert(oid), i - 1);
            let want = object_id(list[i].0, list[i].1);
            assert(rest[i - 1] == list[i]);
            if is_listed(v, want) {
                let k = choose|k: int|
                    0 <= k < v.len() && object_id((#[trigger] v[k]).0, v[k].1) == want;
                assert(u[k + 1] == v[k]);
            }
        }
    }
}

/// Everything that a plan writes is pushed, and so is the commit: the remote
/// lacks nothing.
pub proof fn lemma_all_is_pushed(
    m: RepoModel,
    plan: PlanModel,
    seconds: int,
    p: PendingModel,
    i: int,
)
    requires
        m.pending(Ok(plan), seconds) == Ok::<PendingModel, RepoError>(p),
        0 <= i < plan.list.len(),
    ensures
        is_listed(p.objects, object_id(plan.list[i].0, plan.list[i].1)),
        is_listed(p.objects, p.commit),
{
    let want = object_id(plan.list[i].0, plan.list[i].1);
    let set = set![p.commit];
    let sent = unseen(plan.list, set);
    let n = sent.len() as int;
    lemma_unseen_lists(plan.list, set, i);
    assert(p.objects[n].0 == OBJ_COMMIT);
    assert(object_id(p.objects[n].0, p.objects[n].1) == p.commit);
    if want != p.commit {
        let k = choose|k: int|
            0 <= k < sent.len() && object_id((#[trigger] sent[k]).0, sent[k].1) == want;
        assert(p.objects[k] == sent[k]);
    }
}

proof fn lemma_unseen_once(list: Seq<(u8, Seq<u8>)>, seen: Set<Seq<u8>>)
    ensures
        ({
            let u = unseen(list, seen);
            &&& forall|i: int|
                0 <= i < u.len() ==> list.contains(#[trigger] u[i]) && !seen.contains(
                    object_id(u[i].0, u[i].1),
                )
            &&& forall|i: int, j: int|
                0 <= i < j < u.len() ==> object_id((#[trigger] u[i]).0, u[i].1) != object_id(
                    (#[trigger] u[j]).0,
                    u[j].1,
                )
        }),
    decreases list.len(),
{
    if list.len() > 0 {
        let rest = list.drop_first();
        let oid = object_id(list[0].0, list[0].1);
        let u = unseen(list, seen);
        assert(list.contains(list[0]));
        if seen.contains(oid) {
            let v = unseen(rest, seen);
            lemma_unseen_once(rest, seen);
            assert(u == v);
            assert forall|i: int| 0 <= i < u.len() implies list.contains(#[trigger] u[i])
                && !seen.contains(object_id(u[i].0, u[i].1)) by {
                assert(rest.contains(v[i]));
                let k = choose|k: int| 0 <= k < rest.len() && rest[k] == u[i];
                assert(list[k + 1] == u[i]);
            }
        } else {
            let v = unseen(rest, seen.insert(oid));
            lemma_unseen_once(rest, seen.insert(oid));
            assert forall|i: int| 0 <= i < u.len() implies list.contains(#[trigger] u[i])
                && !seen.contains(object_id(u[i].0, u[i].1)) by {
                if i > 0 {
                    assert(u[i] == v[i - 1]);
                    let k = choose|k: int| 0 <= k < rest.len() && rest[k] == u[i];
                    assert(list[k + 1] == u[i]);
                }
            }
            assert forall|i: int, j: int| 0 <= i < j < u.len() implies object_id(
                (#[trigger] u[i]).0,
                u[i].1,
            ) != object_id((#[trigger] u[j]).0, u[j].1) by {
                assert(u[j] == v[j - 1]);
                if i > 0 {
                    assert(u[i] == v[i - 1]);
                }
            }
        }
    }
}

/// No object is pushed twice, and none but those of the plan and the commit.
pub proof fn lemma_each_is_pushed_once(
    m: RepoModel,
    plan: PlanModel,
    seconds: int,
    p: PendingModel,
    i: int,
    j: int,
)
    requires
        m.pending(Ok(plan), seconds) == Ok::<PendingModel, RepoError>(p),
        0 <= i < j < p.objects.len(),
    ensures
        object_id(p.objects[i].0, p.objects[i].1) != object_id(p.objects[j].0, p.objects[j].1),
        plan.list.contains(p.objects[i]),
        plan.list.contains(p.objects[j]) || object_id(p.objects[j].0, p.objects[j].1) == p.commit,
{
    let set = set![p.commit];
    let sent = unseen(plan.list, set);
    lemma_unseen_once(plan.list, set);
    assert(p.objects[i] == sent[i]);
    if j < sent.len() {
        assert(p.objects[j] == sent[j]);
    }
}

proof fn lemma_kept_with_keeps(
    objects: Map<Seq<u8>, Seq<u8>>,
    list: Seq<(u8, Seq<u8>)>,
    oid: Seq<u8>,
)
    ensures
        objects.contains_key(oid) ==> kept_with(objects, list).contains_key(oid) && kept_with(
            objects,
            list,
        )[oid] == objects[oid],
        is_listed(list, oid) ==> kept_with(objects, list).contains_key(oid),
    decreases list.len(),
{
    if list.len() > 0 {
        let front = list.drop_last();
        lemma_kept_with_keeps(objects, front, oid);
        if is_listed(list, oid) {
            let k = choose|k: int|
                0 <= k < list.len() && object_id((#[trigger] list[k]).0, list[k].1) == oid;
            if k < front.len() {
                assert(front[k] == list[k]);
            } else {
                assert(list[k] == list.last());
            }
        }
    }
}

/// Once a push was taken the branch leads to the commit, the objects that were
/// there are there still, and those that were pushed are there too. Nothing
/// else of the repository changes.
pub proof fn lemma_push_is_taken_in(m: RepoModel, p: PendingModel, oid: Seq<u8>)
    ensures
        ({
            let after = m.pushed(p);
            &&& after.head == Some(p.commit)
            &&& m.objects.contains_key(oid) ==> after.objects.contains_key(oid)
                && after.objects[oid] == m.objects[oid]
            &&& is_listed(p.objects, oid) ==> after.objects.contains_key(oid)
            &&& after.author_name == m.author_name
            &&& after.author_email == m.author_email
            &&& after.remote == m.remote
        }),
{
    lemma_kept_with_keeps(m.objects, p.objects, oid);
}

// ---------------------------------------------------------------------------
// What is fetched
// ---------------------------------------------------------------------------

/// After a fetch that brought a pack the branch leads to the commit that was
/// fetched, and every path that can be looked up in its tree, among the
/// objects of the pack and those that were there, leads where it leads there;
/// files read as their objects in the pack, or else as those that were there.
pub proof fn lemma_fetch_is_taken_in(
    m: RepoModel,
    head: Seq<u8>,
    pack: Seq<u8>,
    names: Seq<Seq<u8>>,
)
    requires
        pack.len() > 0,
        m.fetched(head, pack) is Ok,
    ensures
        unpacked(pack) matches Ok(new) && {
            let all = m.objects.union_prefer_right(new);
            let after = m.fetched(head, pack)->Ok_0;
            &&& after.head == Some(head)
            &&& after.author_name == m.author_name
            &&& after.author_email == m.author_email
            &&& after.remote == m.remote
            &&& all.contains_key(head)
            &&& after.objects.contains_key(head) && after.objects[head] == all[head]
            &&& match commit_tree(all[head]) {
                Some(tree) => match found(all, tree, names) {
                    Ok(t) => after.entry_at(names) == Ok::<Option<TargetModel>, RepoError>(t)
                        && match t {
                        Some(x) => all.contains_key(x.1) ==> after.objects.contains_key(x.1)
                            && after.objects[x.1] == all[x.1],
                        None => true,
                    },
                    Err(_) => true,
                },
                None => false,
            }
        },
{
    let new = unpacked(pack)->Ok_0;
    let all = m.objects.union_prefer_right(new);
    let tree = commit_tree(all[head])->0;
    if found(all, tree, names) is Ok {
        lemma_pruned_keeps(all, tree, head, names);
    }
}

/// A fetch that brings no pack changes nothing; one whose pack cannot be read,
/// or that lacks the commit, is refused.
pub proof fn lemma_fetch_that_brings_nothing(m: RepoModel, head: Seq<u8>, pack: Seq<u8>)
    ensures
        pack.len() == 0 ==> m.fetched(head, pack) == Ok::<RepoModel, RepoError>(m),
        pack.len() > 0 && unpacked(pack) is Err ==> m.fetched(head, pack) is Err,
        pack.len() > 0 && (unpacked(pack) matches Ok(new) && !new.contains_key(head)
            && !m.objects.contains_key(head)) ==> m.fetched(head, pack) == Err::<
            RepoModel,
            RepoError,
        >(RepoError::MissingCommit),
{
}

/// A fetch is taken in whenever its pack can be read and has the commit, or the
/// commit was there, and the commit names its tree.
pub proof fn lemma_sound_fetch_is_taken_in(m: RepoModel, head: Seq<u8>, pack: Seq<u8>)
    requires
        pack.len() > 0,
        unpacked(pack) is Ok,
    ensures
        ({
            let new = unpacked(pack)->Ok_0;
            let commit = if new.contains_key(head) {
                new[head]
            } else {
                m.objects[head]
            };
            (new.contains_key(head) || m.objects.contains_key(head)) && commit_tree(commit) is Some
                <==> m.fetched(head, pack) is Ok
        }),
{
}

/// What is kept after a fetch is needed: but for the commit and its tree it is
/// named by an entry of a tree that is kept.
pub proof fn lemma_no_more_is_kept(m: RepoModel, head: Seq<u8>, pack: Seq<u8>, oid: Seq<u8>)
    requires
        pack.len() > 0,
        m.fetched(head, pack) is Ok,
        m.fetched(head, pack)->Ok_0.objects.contains_key(oid),
        oid != head,
    ensures
        ({
            let after = m.fetched(head, pack)->Ok_0;
            commit_tree(after.objects[head]) == Some(oid) || exists|t: Seq<u8>, e: EntryModel|
                #[trigger] entry_of(after.objects, t, e) && e.oid == oid
        }),
{
    let all = m.objects.union_prefer_right(unpacked(pack)->Ok_0);
    let tree = commit_tree(all[head])->0;
    let kept = m.fetched(head, pack)->Ok_0.objects;
    assert(kept[head] == all[head]);
    if tree_reached(all, tree, oid) {
        let chain = choose|chain: Seq<Seq<u8>>| tree_chain(all, tree, oid, chain);
        let n = chain.len() as int;
        if n > 1 {
            let above = chain.drop_last();
            assert(tree_chain(all, tree, above.last(), above)) by {
                assert forall|i: int| 0 <= i < above.len() - 1 implies child_tree(
                    all,
                    #[trigger] above[i],
                    above[i + 1],
                ) by {
                    assert(above[i] == chain[i] && above[i + 1] == chain[i + 1]);
                }
            }
            assert(child_tree(all, chain[n - 2], chain[n - 2 + 1]));
            let e = choose|e: EntryModel| #[trigger]
                entry_of(all, chain[n - 2], e) && tree_mode(e.octal) && e.oid == oid;
            assert(object_reached(all, tree, above.last()));
            assert(entry_of(kept, chain[n - 2], e));
        }
    } else {
        let (t, e) = choose|t: Seq<u8>, e: EntryModel|
            tree_reached(all, tree, t) && #[trigger] entry_of(all, t, e) && e.oid == oid;
        assert(object_reached(all, tree, t));
        assert(entry_of(kept, t, e));
    }
}

// ---------------------------------------------------------------------------
// Several changes at once, and none yet
// ---------------------------------------------------------------------------

/// Of several changes, those that write come first, each with its path and its
/// content, and behind them those that delete.
pub proof fn lemma_changes_in_order(writes: Seq<(RepoPath, Vec<u8>)>, deletes: Seq<RepoPath>)
    ensures
        ({
            let cs = changes_of(writes, deletes);
            &&& cs.len() == writes.len() + deletes.len()
            &&& forall|i: int|
                0 <= i < writes.len() ==> (#[trigger] cs[i]).names == components_of(writes[i].0@)
                    && cs[i].data == Some(writes[i].1@)
            &&& forall|i: int|
                0 <= i < deletes.len() ==> (#[trigger] cs[writes.len() + i]).names == components_of(
                    deletes[i]@,
                ) && cs[writes.len() + i].data is None
        }),
{
}

/// Once several changes are pushed, each file that was written reads as what
/// was written, where no other change meets its path; what was deleted is
/// gone; and a file whose path parts ways with all of them is as it was.
pub proof fn lemma_changes_at_once(
    m: RepoModel,
    after: RepoModel,
    cs: Seq<EditModel>,
    i: int,
    other: Seq<Seq<u8>>,
)
    requires
        batch_holds(m, after, cs),
        0 <= i < cs.len(),
        utf8_names(other),
    ensures
        (forall|j: int| i < j < cs.len() ==> apart((#[trigger] cs[j]).names, cs[i].names)) && (
        cs[i].data is Some) ==> after.file_at(cs[i].names) == Ok::<Option<Seq<u8>>, RepoError>(
            cs[i].data,
        ),
        cs[i].data is None ==> after.entry_at(cs[i].names) == Ok::<
            Option<TargetModel>,
            RepoError,
        >(None),
        (forall|j: int| 0 <= j < cs.len() ==> apart((#[trigger] cs[j]).names, other)) && (m.file_at(
            other,
        ) matches Ok(Some(_))) ==> after.file_at(other) == m.file_at(other),
{
    if forall|j: int| i < j < cs.len() ==> apart((#[trigger] cs[j]).names, cs[i].names) {
        assert(parted(cs, i + 1, cs.len() as int, cs[i].names));
    }
    if forall|j: int| 0 <= j < cs.len() ==> apart((#[trigger] cs[j]).names, other) {
        assert(parted(cs, 0, cs.len() as int, other));
        assert(stays(m, after, other));
    }
}

/// A repository of which nothing has been fetched has no head and no objects;
/// it has the author that was named, or else `davgit` of `davgit@localhost`.
pub proof fn lemma_fresh(remote: RemoteModel, name: Seq<char>, email: Seq<char>)
    ensures
        ({
            let m = fresh_repo(remote, name, email);
            &&& m.head is None
            &&& m.objects.dom() == Set::<Seq<u8>>::empty()
            &&& m.remote == remote
            &&& name.len() > 0 ==> m.author_name == name
            &&& name.len() == 0 ==> m.author_name == "davgit"@
            &&& email.len() > 0 ==> m.author_email == email
            &&& email.len() == 0 ==> m.author_email == "davgit@localhost"@
        }),
        ({
            let m = fresh_bridge(remote, name, email);
            &&& m.head is None
            &&& m.files.len() == 0
            &&& m.remote == remote
            &&& name.len() > 0 ==> m.author_name == name
            &&& name.len() == 0 ==> m.author_name == "davgit"@
            &&& email.len() > 0 ==> m.author_email == email
            &&& email.len() == 0 ==> m.author_email == "davgit@localhost"@
        }),
{
}

/// One change by itself comes to the same whether it is made as one of several
/// or not, and no change at all comes to the tree that is there.
pub proof fn lemma_one_of_several(m: RepoModel, raw: Seq<u8>, data: Seq<u8>, message: Seq<char>)
    ensures
        m.batch_plan(
            seq![EditModel { names: components_of(raw), data: Some(data) }],
            message,
        ) == m.file_plan(raw, data, message),
        m.batch_plan(seq![EditModel { names: components_of(raw), data: None }], message)
            == m.removal_plan(raw, message),
        m.batch_plan(Seq::empty(), message) == match m.head_tree() {
            Ok((_, tree)) => Ok::<PlanModel, RepoError>(
                (PlanModel { root: tree, list: Seq::empty(), message }),
            ),
            Err(e) => Err(e),
        },
{
    let write = EditModel { names: components_of(raw), data: Some(data) };
    let delete = EditModel { names: components_of(raw), data: None };
    let start = m.progress();
    assert(seq![write].drop_last() =~= Seq::empty());
    assert(seq![delete].drop_last() =~= Seq::empty());
    assert(start.after(Seq::empty()) == Ok::<Progress, RepoError>(start));
    assert(start.after(seq![write]) == start.stepped(write));
    assert(start.after(seq![delete]) == start.stepped(delete));
    if m.head_tree() is Ok {
        match start.stepped(write) {
            Ok(end) => {
                assert(m.file_plan(raw, data, message)->Ok_0.list =~= end.list);
            },
            Err(_) => {},
        }
        match start.stepped(delete) {
            Ok(end) => {
                assert(m.removal_plan(raw, message)->Ok_0.list =~= end.list);
            },
            Err(_) => {},
        }
    }
}

/// Of several changes the last is made where the ones before have led: in a
/// repository whose head has the tree and the objects that those come to, it
/// gives the same tree, and what it writes is all that is written more.
pub proof fn lemma_several_in_turn(
    m: RepoModel,
    between: RepoModel,
    cs: Seq<EditModel>,
    c: EditModel,
    message: Seq<char>,
)
    requires
        m.head_tree() is Ok,
        m.batch_plan(cs, message) is Ok,
        between.objects == m.progress().after(cs)->Ok_0.objects,
        between.head_tree() matches Ok((_, tree)) && tree == m.batch_plan(cs, message)->Ok_0.root,
    ensures
        match between.batch_plan(seq![c], message) {
            Ok(last) => m.batch_plan(cs.push(c), message) matches Ok(all) && all.root == last.root
                && all.list == m.batch_plan(cs, message)->Ok_0.list + last.list && all.message
                == message,
            Err(e) => m.batch_plan(cs.push(c), message) == Err::<PlanModel, RepoError>(e),
        },
{
    let all = cs.push(c);
    assert(all.drop_last() =~= cs);
    let now = m.progress().after(cs)->Ok_0;
    let start = between.progress();
    assert(seq![c].drop_last() =~= Seq::empty());
    assert(start.after(Seq::empty()) == Ok::<Progress, RepoError>(start));
    assert(start.after(seq![c]) == start.stepped(c));
    assert(m.progress().after(all) == now.stepped(c));
    match start.stepped(c) {
        Ok(last) => {
            assert(now.stepped(c)->Ok_0.list =~= now.list + last.list);
        },
        Err(_) => {},
    }
}

} // verus!
