//! When a change can be prepared.

use vstd::prelude::*;
use vstd::utf8::{encode_utf8, valid_utf8};

use crate::bytes::text;
use crate::git::entry::{file_mode, lemma_own_modes};
use crate::git::lists::TargetModel;
use crate::git::objects::{
    apart, copied_entry, found, held_in, lemma_found_sound, lemma_found_utf8, lemma_sound_extends,
    modified, no_collision, sound_path, utf8_names,
};
use crate::git::packfile::{OBJ_BLOB, object_id, pack_body, packed_entry};
use crate::git::repo::{PendingModel, PlanModel, RepoError, RepoModel, marker_path, transfer_into};
use crate::git::success::{
    clear_path, lemma_copy_succeeds, lemma_insertion_succeeds, lemma_next_change_is_sound,
    lemma_plain_way_extends, lemma_plain_way_is_orderly, lemma_removal_succeeds, plain_names,
    plain_way,
};
use crate::outside::{plain_token, zlib_deflated};
use crate::path::{components_of, lemma_joined_components};

verus! {

/// A path that can be written in these trees: those that it leads through are
/// sound, no name in them or in it holds a `/`, and its own names are UTF-8
/// without NUL.
pub open spec fn can_be_put(m: RepoModel, names: Seq<Seq<u8>>) -> bool {
    m.head_tree() matches Ok((_, tree)) && {
        &&& names.len() > 0
        &&& utf8_names(names)
        &&& clear_path(names)
        &&& sound_path(m.objects, tree, names)
        &&& plain_way(m.objects, tree, names)
    }
}

/// A file can be written at every path where one can be put: a plan comes of
/// it, whatever its content is.
pub proof fn lemma_file_can_be_planned(m: RepoModel, raw: Seq<u8>, data: Seq<u8>, message: Seq<char>)
    requires
        can_be_put(m, components_of(raw)),
        m.objects.contains_key(object_id(OBJ_BLOB, data)) ==> m.objects[object_id(OBJ_BLOB, data)]
            == data,
    ensures
        m.file_plan(raw, data, message) is Ok,
{
    let names = components_of(raw);
    let tree = m.head_tree()->Ok_0.1;
    let blob = object_id(OBJ_BLOB, data);
    let before = m.objects.insert(blob, data);
    assert(held_in(m.objects, before));
    lemma_own_modes();
    lemma_sound_extends(m.objects, before, tree, names);
    lemma_plain_way_extends(m.objects, before, tree, names);
    lemma_plain_way_is_orderly(before, tree, names, Some((file_mode(), blob)));
    lemma_insertion_succeeds(before, tree, names, (file_mode(), blob));
}

/// So a PUT there can be prepared, and a MKCOL.
pub proof fn lemma_writes_can_be_planned(m: RepoModel, path: Seq<u8>, data: Seq<u8>)
    requires
        valid_utf8(path),
    ensures
        can_be_put(m, components_of(path)) && (m.objects.contains_key(object_id(OBJ_BLOB, data))
            ==> m.objects[object_id(OBJ_BLOB, data)] == data) ==> m.write_plan(path, data) is Ok,
        can_be_put(m, components_of(path).push(text(".DAV"))) && (m.objects.contains_key(
            object_id(OBJ_BLOB, Seq::empty()),
        ) ==> m.objects[object_id(OBJ_BLOB, Seq::empty())] == Seq::<u8>::empty())
            ==> m.create_dir_plan(path) is Ok,
{
    if can_be_put(m, components_of(path)) && (m.objects.contains_key(object_id(OBJ_BLOB, data))
        ==> m.objects[object_id(OBJ_BLOB, data)] == data) {
        lemma_file_can_be_planned(
            m,
            path,
            data,
            "update "@ + vstd::utf8::decode_utf8(path),
        );
    }
    crate::answers::lemma_texts();
    crate::bytes::lemma_position_none(text(".DAV"), 47);
    lemma_joined_components(path, text(".DAV"));
    let none = Seq::<u8>::empty();
    if can_be_put(m, components_of(path).push(text(".DAV"))) && (m.objects.contains_key(
        object_id(OBJ_BLOB, none),
    ) ==> m.objects[object_id(OBJ_BLOB, none)] == none) {
        lemma_file_can_be_planned(
            m,
            marker_path(path),
            none,
            "create dir "@ + crate::outside::path_debug(vstd::utf8::decode_utf8(path)),
        );
    }
}

/// What is there can be deleted, and only that.
pub proof fn lemma_deletes_can_be_planned(m: RepoModel, path: Seq<u8>)
    requires
        valid_utf8(path),
        m.head_tree() is Ok,
        sound_path(m.objects, m.head_tree()->Ok_0.1, components_of(path)),
        plain_way(m.objects, m.head_tree()->Ok_0.1, components_of(path)),
    ensures
        m.delete_plan(path) is Ok <==> components_of(path).len() > 0 && (m.entry_at(
            components_of(path),
        ) matches Ok(Some(_))),
        m.delete_subtree_plan(path) is Ok <==> m.delete_plan(path) is Ok,
{
    let names = components_of(path);
    let tree = m.head_tree()->Ok_0.1;
    lemma_plain_way_is_orderly(m.objects, tree, names, None);
    lemma_removal_succeeds(m.objects, tree, names);
}

/// What is there can be copied to where nothing is.
pub proof fn lemma_copies_can_be_planned(m: RepoModel, path: Seq<u8>, dest: Seq<u8>)
    requires
        valid_utf8(path),
        valid_utf8(dest),
        can_be_put(m, components_of(dest)),
        m.head_tree()->Ok_0.1.len() == 20,
        sound_path(m.objects, m.head_tree()->Ok_0.1, components_of(path)),
        m.entry_at(components_of(path)) matches Ok(Some(_)),
        m.entry_at(components_of(dest)) == Ok::<Option<TargetModel>, RepoError>(None),
    ensures
        m.transfer_plan(path, dest, false) is Ok,
{
    let from = components_of(path);
    let to = components_of(dest);
    let tree = m.head_tree()->Ok_0.1;
    lemma_plain_way_is_orderly(m.objects, tree, to, found(m.objects, tree, from)->Ok_0);
    lemma_copy_succeeds(m.objects, tree, from, to);
}

/// Two paths between which something can be moved, in these trees: they part
/// ways, what they lead through is sound, and no name holds a `/`.
pub open spec fn can_be_moved(
    objects: Map<Seq<u8>, Seq<u8>>,
    tree: Seq<u8>,
    from: Seq<Seq<u8>>,
    to: Seq<Seq<u8>>,
) -> bool {
    &&& tree.len() == 20
    &&& apart(to, from)
    &&& utf8_names(to) && clear_path(to)
    &&& plain_names(from) && plain_names(to)
    &&& sound_path(objects, tree, from) && plain_way(objects, tree, from)
    &&& sound_path(objects, tree, to) && plain_way(objects, tree, to)
    &&& found(objects, tree, from) matches Ok(Some(_))
}

proof fn lemma_goes_into(
    objects: Map<Seq<u8>, Seq<u8>>,
    tree: Seq<u8>,
    from: Seq<Seq<u8>>,
    to: Seq<Seq<u8>>,
    is_move: bool,
    message: Seq<char>,
)
    requires
        can_be_moved(objects, tree, from, to),
        no_collision(objects, copied_entry(objects, tree, from, to).1->Ok_0.1),
    ensures
        transfer_into(objects, tree, from, to, is_move, message) is Ok,
{
    let target = found(objects, tree, from)->Ok_0;
    lemma_plain_way_is_orderly(objects, tree, to, target);
    lemma_copy_succeeds(objects, tree, from, to);
    lemma_own_modes();
    lemma_found_sound(objects, tree, from);
    lemma_found_utf8(objects, tree, from);
    lemma_next_change_is_sound(objects, tree, to, target, from);
    let (after, r) = copied_entry(objects, tree, from, to);
    let root = r->Ok_0.0;
    lemma_plain_way_is_orderly(after, root, from, None);
    lemma_removal_succeeds(after, root, from);
}

/// What is there can be moved to where nothing is, and copied, as long as no
/// ids of what is written collide.
pub proof fn lemma_moves_can_be_planned(m: RepoModel, path: Seq<u8>, dest: Seq<u8>, is_move: bool)
    requires
        valid_utf8(path),
        valid_utf8(dest),
        m.head_tree() is Ok,
        m.entry_at(components_of(dest)) == Ok::<Option<TargetModel>, RepoError>(None),
        ({
            let tree = m.head_tree()->Ok_0.1;
            let from = components_of(path);
            let to = components_of(dest);
            can_be_moved(m.objects, tree, from, to) && no_collision(
                m.objects,
                copied_entry(m.objects, tree, from, to).1->Ok_0.1,
            )
        }),
    ensures
        m.transfer_plan(path, dest, is_move) is Ok,
{
    lemma_goes_into(
        m.objects,
        m.head_tree()->Ok_0.1,
        components_of(path),
        components_of(dest),
        is_move,
        crate::git::repo::transfer_message(
            if is_move {
                "move "@
            } else {
                "copy "@
            },
            path,
            dest,
        ),
    );
}

/// What is there can be moved over what is there already, and copied, as long
/// as no ids of what is written collide.
pub proof fn lemma_overwriting_can_be_planned(
    m: RepoModel,
    path: Seq<u8>,
    dest: Seq<u8>,
    is_move: bool,
)
    requires
        valid_utf8(path),
        valid_utf8(dest),
        m.head_tree() is Ok,
        m.entry_at(components_of(dest)) matches Ok(Some(_)),
        ({
            let tree = m.head_tree()->Ok_0.1;
            let from = components_of(path);
            let to = components_of(dest);
            let (cleared, r) = modified(m.objects, tree, to, None);
            &&& can_be_moved(m.objects, tree, from, to)
            &&& no_collision(m.objects, r->Ok_0.1)
            &&& no_collision(cleared, copied_entry(cleared, r->Ok_0.0, from, to).1->Ok_0.1)
        }),
    ensures
        m.transfer_plan(path, dest, is_move) is Ok,
{
    let tree = m.head_tree()->Ok_0.1;
    let from = components_of(path);
    let to = components_of(dest);
    let (cleared, r) = modified(m.objects, tree, to, None);
    lemma_plain_way_is_orderly(m.objects, tree, to, None);
    lemma_removal_succeeds(m.objects, tree, to);
    lemma_found_utf8(m.objects, tree, from);
    lemma_next_change_is_sound(m.objects, tree, to, None, from);
    lemma_goes_into(
        cleared,
        r->Ok_0.0,
        from,
        to,
        is_move,
        crate::git::repo::transfer_message(
            if is_move {
                "move "@
            } else {
                "copy "@
            },
            path,
            dest,
        ),
    );
}

/// A plan can be made ready to be pushed, as long as a commit can name its
/// author and what is pushed can be packed.
pub proof fn lemma_plans_can_be_prepared(m: RepoModel, plan: PlanModel, seconds: int)
    requires
        m.head is Some,
        plain_token(encode_utf8(m.author_name)),
        plain_token(encode_utf8(m.author_email)),
        forall|content: Seq<u8>| #[trigger] zlib_deflated(content) is Some,
    ensures
        m.pending(Ok(plan), seconds) is Ok,
{
    let commit = m.commit_of(plan, m.head->0, seconds);
    let oid = object_id(crate::git::packfile::OBJ_COMMIT, commit);
    let objects = crate::git::repo::unseen(plan.list, set![oid]).push(
        (crate::git::packfile::OBJ_COMMIT, commit),
    );
    lemma_body_packs(objects);
}

/// Where every content can be compressed, every list of objects can be packed.
pub proof fn lemma_body_packs(es: Seq<(u8, Seq<u8>)>)
    requires
        forall|content: Seq<u8>| #[trigger] zlib_deflated(content) is Some,
    ensures
        pack_body(es) is Some,
    decreases es.len(),
{
    if es.len() > 0 {
        lemma_body_packs(es.drop_last());
        assert(zlib_deflated(es.last().1) is Some);
        assert(packed_entry(es.last()) is Some);
    }
}

/// Without a head, or with an author that a commit cannot name, nothing is
/// prepared.
pub proof fn lemma_what_cannot_be_prepared(m: RepoModel, plan: PlanModel, seconds: int)
    ensures
        m.head is None ==> m.pending(Ok(plan), seconds) == Err::<PendingModel, RepoError>(
            RepoError::NoHead,
        ),
        m.head is Some && (!plain_token(encode_utf8(m.author_name)) || !plain_token(
            encode_utf8(m.author_email),
        )) ==> m.pending(Ok(plan), seconds) == Err::<PendingModel, RepoError>(RepoError::BadAuthor),
{
}

} // verus!
