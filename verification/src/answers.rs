//! What holds of every request: what it is answered, and what it comes to.

use vstd::prelude::*;

use crate::bytes::{decimal, text};
use crate::git::entry::{EntryModel, directory_mode, lemma_own_modes, regular_entries, tree_mode};
use crate::git::lists::{TargetModel, distinct_names, sound_items};
use crate::git::objects::{apart, found, no_collision, sound_path};
use crate::git::repo::{PlanModel, RepoError, RepoModel, settled};
use crate::git::success::lemma_found_above;
use crate::handler::{
    ChangeModel, RequestModel, ResponseModel, StepModel, body_step, change_answer, dav_path,
    destination_path, media_type, relative, request_step,
};
use crate::outside::{hex_of, present, sha1_of, tree_items};
use crate::path::{components_of, extension_of, lemma_joined_components};

verus! {

// ---------------------------------------------------------------------------
// Texts
// ---------------------------------------------------------------------------

/// The names of methods and headers that requests are told apart by.
pub proof fn lemma_texts()
    ensures
        text("GET") == seq![71u8, 69u8, 84u8],
        text("HEAD") == seq![72u8, 69u8, 65u8, 68u8],
        text("PUT") == seq![80u8, 85u8, 84u8],
        text("DELETE") == seq![68u8, 69u8, 76u8, 69u8, 84u8, 69u8],
        text("MKCOL") == seq![77u8, 75u8, 67u8, 79u8, 76u8],
        text("OPTIONS").len() == 7,
        text("PROPFIND").len() == 8,
        text("PROPPATCH").len() == 9,
        text("MOVE") == seq![77u8, 79u8, 86u8, 69u8],
        text("COPY") == seq![67u8, 79u8, 80u8, 89u8],
        text(".DAV") == seq![46u8, 68u8, 65u8, 86u8],
        text("*").len() == 1,
        text("F").len() == 1,
{
    reveal_strlit("GET");
    vstd::utf8::is_ascii_chars_encode_utf8("GET"@);
    assert(text("GET") =~= seq![71u8, 69u8, 84u8]);
    reveal_strlit("HEAD");
    vstd::utf8::is_ascii_chars_encode_utf8("HEAD"@);
    assert(text("HEAD") =~= seq![72u8, 69u8, 65u8, 68u8]);
    reveal_strlit("PUT");
    vstd::utf8::is_ascii_chars_encode_utf8("PUT"@);
    assert(text("PUT") =~= seq![80u8, 85u8, 84u8]);
    reveal_strlit("DELETE");
    vstd::utf8::is_ascii_chars_encode_utf8("DELETE"@);
    assert(text("DELETE") =~= seq![68u8, 69u8, 76u8, 69u8, 84u8, 69u8]);
    reveal_strlit("MKCOL");
    vstd::utf8::is_ascii_chars_encode_utf8("MKCOL"@);
    assert(text("MKCOL") =~= seq![77u8, 75u8, 67u8, 79u8, 76u8]);
    reveal_strlit("OPTIONS");
    vstd::utf8::is_ascii_chars_encode_utf8("OPTIONS"@);
    reveal_strlit("PROPFIND");
    vstd::utf8::is_ascii_chars_encode_utf8("PROPFIND"@);
    reveal_strlit("PROPPATCH");
    vstd::utf8::is_ascii_chars_encode_utf8("PROPPATCH"@);
    reveal_strlit("MOVE");
    vstd::utf8::is_ascii_chars_encode_utf8("MOVE"@);
    assert(text("MOVE") =~= seq![77u8, 79u8, 86u8, 69u8]);
    reveal_strlit("COPY");
    vstd::utf8::is_ascii_chars_encode_utf8("COPY"@);
    assert(text("COPY") =~= seq![67u8, 79u8, 80u8, 89u8]);
    reveal_strlit(".DAV");
    vstd::utf8::is_ascii_chars_encode_utf8(".DAV"@);
    assert(text(".DAV") =~= seq![46u8, 68u8, 65u8, 86u8]);
    reveal_strlit("*");
    vstd::utf8::is_ascii_chars_encode_utf8("*"@);
    reveal_strlit("F");
    vstd::utf8::is_ascii_chars_encode_utf8("F"@);
}

proof fn lemma_header_names()
    ensures
        text("Content-Type").len() == 12,
        text("Content-Length").len() == 14,
        text("ETag").len() == 4,
        text("Accept-Ranges").len() == 13,
        text("DAV").len() == 3,
        text("Allow").len() == 5,
{
    reveal_strlit("Content-Type");
    vstd::utf8::is_ascii_chars_encode_utf8("Content-Type"@);
    reveal_strlit("Content-Length");
    vstd::utf8::is_ascii_chars_encode_utf8("Content-Length"@);
    reveal_strlit("ETag");
    vstd::utf8::is_ascii_chars_encode_utf8("ETag"@);
    reveal_strlit("Accept-Ranges");
    vstd::utf8::is_ascii_chars_encode_utf8("Accept-Ranges"@);
    reveal_strlit("DAV");
    vstd::utf8::is_ascii_chars_encode_utf8("DAV"@);
    reveal_strlit("Allow");
    vstd::utf8::is_ascii_chars_encode_utf8("Allow"@);
}

// ---------------------------------------------------------------------------
// Where a request points, and what is there
// ---------------------------------------------------------------------------

/// The URL of the request is `/` and this path.
pub open spec fn points_to(req: RequestModel, path: Seq<u8>) -> bool {
    req.path == seq![47u8] + path
}

/// The path ends in the name of a marker file.
pub open spec fn ends_in_marker(names: Seq<Seq<u8>>) -> bool {
    names.len() > 0 && names.last() == text(".DAV")
}

/// A directory is at the path; at the root there always is one.
pub open spec fn has_directory(m: RepoModel, names: Seq<Seq<u8>>) -> bool {
    names.len() == 0 || (m.entry_at(names) matches Ok(Some(t)) && tree_mode(t.0))
}

/// A file is at the path, and its content is at hand.
pub open spec fn has_file(m: RepoModel, names: Seq<Seq<u8>>) -> bool {
    m.entry_at(names) matches Ok(Some(t)) && !tree_mode(t.0) && m.objects.contains_key(t.1)
}

/// Something is at the path.
pub open spec fn has_any(m: RepoModel, names: Seq<Seq<u8>>) -> bool {
    has_directory(m, names) || has_file(m, names)
}

/// The directory that the path is in is there.
pub open spec fn has_parent(m: RepoModel, names: Seq<Seq<u8>>) -> bool {
    names.len() == 0 || has_directory(m, names.drop_last())
}

/// The path leads to nothing.
pub open spec fn is_gone(m: RepoModel, names: Seq<Seq<u8>>) -> bool {
    m.entry_at(names) == Ok::<Option<TargetModel>, RepoError>(None)
}

/// The file at the path reads as `data`.
pub open spec fn reads_as(m: RepoModel, names: Seq<Seq<u8>>, data: Seq<u8>) -> bool {
    m.file_at(names) == Ok::<Option<Seq<u8>>, RepoError>(Some(data))
}

/// What is read of a file is what its entry leads to, whole.
pub proof fn lemma_file_is_its_object(m: RepoModel, names: Seq<Seq<u8>>)
    ensures
        has_file(m, names) ==> reads_as(m, names, m.objects[(m.entry_at(names)->Ok_0->0).1]),
        has_file(m, names) <==> m.file_at(names) matches Ok(Some(_)),
        has_directory(m, names) <==> m.directory_at(names),
        is_gone(m, names) ==> m.file_at(names) == Ok::<Option<Seq<u8>>, RepoError>(None),
{
}

/// A path is taken for that of a marker file where it ends in the name of one.
pub proof fn lemma_marker(names: Seq<Seq<u8>>)
    ensures
        dav_path(names) <==> ends_in_marker(names),
{
    lemma_texts();
    assert(text(".DAV").len() == 4);
    assert(seq![47u8].len() == 1);
    assert(seq![46u8].len() == 1);
    assert(seq![46u8, 46u8].len() == 2);
}

/// The answer has this status, no headers and no body.
pub open spec fn just(step: StepModel, status: u16) -> bool {
    step matches StepModel::Reply(r) && r.status == status && r.headers.len() == 0 && r.body.len()
        == 0
}

/// The one header of this name has this value.
pub open spec fn says(r: ResponseModel, name: Seq<u8>, value: Seq<u8>) -> bool {
    &&& r.headers.contains((name, value))
    &&& forall|i: int|
        0 <= i < r.headers.len() && (#[trigger] r.headers[i]).0 == name ==> r.headers[i].1 == value
}

proof fn lemma_four_headers(r: ResponseModel)
    requires
        r.headers.len() == 4,
        forall|i: int, j: int|
            0 <= i < j < 4 ==> (#[trigger] r.headers[i]).0 != (#[trigger] r.headers[j]).0,
    ensures
        forall|i: int|
            0 <= i < 4 ==> says(r, (#[trigger] r.headers[i]).0, r.headers[i].1),
{
    assert forall|i: int| 0 <= i < 4 implies says(r, (#[trigger] r.headers[i]).0, r.headers[i].1) by {
        assert(r.headers.contains(r.headers[i]));
        assert((r.headers[i].0, r.headers[i].1) == r.headers[i]);
        assert forall|k: int|
            0 <= k < r.headers.len() && (#[trigger] r.headers[k]).0 == r.headers[i].0 implies
            r.headers[k].1 == r.headers[i].1 by {
            if k < i {
                assert(r.headers[k].0 != r.headers[i].0);
            } else if i < k {
                assert(r.headers[i].0 != r.headers[k].0);
            }
        }
    }
}

// ---------------------------------------------------------------------------
// Reading
// ---------------------------------------------------------------------------

/// The tag of a content: its digest in double quotes.
pub open spec fn quoted_digest(data: Seq<u8>) -> Seq<u8> {
    seq![34u8] + hex_of(sha1_of(data)@) + seq![34u8]
}

/// GET of a file that the client does not have is answered with all of it: the
/// body is the content, and the headers tell its length, its tag and its type.
pub proof fn lemma_get_sends_the_file(
    m: RepoModel,
    req: RequestModel,
    path: Seq<u8>,
    data: Seq<u8>,
)
    requires
        req.method == text("GET"),
        points_to(req, path),
        !ends_in_marker(components_of(path)),
        !has_directory(m, components_of(path)),
        reads_as(m, components_of(path), data),
        req.if_none_match != Some(quoted_digest(data)),
    ensures
        request_step(m, req) matches StepModel::Reply(r) && {
            &&& r.status == 200
            &&& r.body == data
            &&& says(r, text("Content-Length"), decimal(r.body.len()))
            &&& says(r, text("ETag"), quoted_digest(r.body))
            &&& says(r, text("Content-Type"), media_type(extension_of(components_of(path))))
            &&& says(r, text("Accept-Ranges"), text("bytes"))
        },
{
    lemma_texts();
    lemma_header_names();
    assert(req.path.drop_first() =~= path);
    lemma_marker(components_of(path));
    lemma_file_is_its_object(m, components_of(path));
    let r = request_step(m, req)->Reply_0;
    assert(r.status == 200 && r.body == data);
    assert(r.headers[0] == (
        text("Content-Type"),
        media_type(extension_of(components_of(path))),
    ));
    assert(r.headers[1] == (text("Content-Length"), decimal(data.len())));
    assert(r.headers[2] == (text("ETag"), quoted_digest(data)));
    assert(r.headers[3] == (text("Accept-Ranges"), text("bytes")));
    assert forall|i: int, j: int| 0 <= i < j < 4 implies (#[trigger] r.headers[i]).0 != (
    #[trigger] r.headers[j]).0 by {
        assert(r.headers[i].0.len() != r.headers[j].0.len());
    }
    lemma_four_headers(r);
}

/// GET of anything else has an answer without a body: 304 where the client has
/// the content, 404 where no file is, 500 where the trees cannot be read.
pub proof fn lemma_get_without_body(m: RepoModel, req: RequestModel, path: Seq<u8>)
    requires
        req.method == text("GET"),
        points_to(req, path),
    ensures
        ({
            let names = components_of(path);
            let step = request_step(m, req);
            if ends_in_marker(names) || has_directory(m, names) {
                just(step, 404)
            } else {
                match m.file_at(names) {
                    Ok(Some(data)) => req.if_none_match == Some(quoted_digest(data)) ==> just(
                        step,
                        304,
                    ),
                    Ok(None) => just(step, 404),
                    Err(_) => just(step, 500),
                }
            }
        }),
{
    lemma_texts();
    assert(req.path.drop_first() =~= path);
    lemma_marker(components_of(path));
    lemma_file_is_its_object(m, components_of(path));
}

/// HEAD is answered as GET is, with the same status and headers, and with no
/// body.
pub proof fn lemma_head_is_get_without_body(m: RepoModel, head: RequestModel, get: RequestModel)
    requires
        head.method == text("HEAD"),
        get.method == text("GET"),
        head.path == get.path,
        head.if_none_match == get.if_none_match,
    ensures
        match (request_step(m, head), request_step(m, get)) {
            (StepModel::Reply(a), StepModel::Reply(b)) => a.status == b.status && a.headers
                == b.headers && a.body.len() == 0,
            _ => false,
        },
{
    lemma_texts();
}

// ---------------------------------------------------------------------------
// Writing
// ---------------------------------------------------------------------------

/// PUT is let through where the directory is there and what the client says of
/// the file holds, for the path of the request; else it is refused, and
/// nothing is written.
pub proof fn lemma_put_is_let_through(m: RepoModel, req: RequestModel, path: Seq<u8>)
    requires
        req.method == text("PUT"),
        points_to(req, path),
    ensures
        ({
            let names = components_of(path);
            let step = request_step(m, req);
            if ends_in_marker(names) {
                just(step, 405)
            } else if !has_parent(m, names) {
                just(step, 409)
            } else if req.if_none_match == Some(text("*")) && has_any(m, names) {
                just(step, 412)
            } else if req.if_match == Some(text("*")) && !has_any(m, names) {
                just(step, 412)
            } else {
                step == (StepModel::ReadBody { path, file_exists: has_any(m, names) })
            }
        }),
{
    lemma_texts();
    assert(req.path.drop_first() =~= path);
    let names = components_of(path);
    lemma_marker(names);
    lemma_file_is_its_object(m, names);
    if names.len() > 0 {
        lemma_file_is_its_object(m, names.drop_last());
    }
}

/// The body of a PUT is written as it is, to the path of the request: once the
/// change is pushed the file reads as the body, and what is elsewhere stays.
/// Only an empty body to where nothing is writes nothing.
pub proof fn lemma_put_writes_the_body(
    m: RepoModel,
    after: RepoModel,
    path: Seq<u8>,
    file_exists: bool,
    data: Seq<u8>,
)
    ensures
        ({
            let step = body_step(path, file_exists, Some(data));
            if data.len() == 0 && !file_exists {
                just(step, 201)
            } else {
                step matches StepModel::Perform { change, status } && {
                    &&& change == ChangeModel::Write(path, data)
                    &&& status == if data.len() == 0 {
                        204
                    } else {
                        201int
                    }
                    &&& m.change_holds(after, change) ==> reads_as(after, components_of(path), data)
                        && forall|other: Seq<Seq<u8>>, old: Seq<u8>|
                        apart(components_of(path), other) && crate::git::objects::utf8_names(other)
                            && #[trigger] reads_as(m, other, old) ==> reads_as(after, other, old)
                }
            }
        }),
        just(body_step(path, file_exists, None), 500),
{
    let names = components_of(path);
    if m.change_holds(after, ChangeModel::Write(path, data)) {
        assert forall|other: Seq<Seq<u8>>, old: Seq<u8>|
            apart(names, other) && crate::git::objects::utf8_names(other) && #[trigger] reads_as(
                m,
                other,
                old,
            ) implies reads_as(after, other, old) by {
            assert(crate::git::repo::stays(m, after, other));
        }
    }
}

/// What was written is what GET sends: the body of the answer is the body of
/// the PUT.
pub proof fn lemma_written_is_sent(
    m: RepoModel,
    after: RepoModel,
    path: Seq<u8>,
    data: Seq<u8>,
    get: RequestModel,
)
    requires
        m.change_holds(after, ChangeModel::Write(path, data)),
        !ends_in_marker(components_of(path)),
        get.method == text("GET"),
        points_to(get, path),
        get.if_none_match is None,
    ensures
        request_step(after, get) matches StepModel::Reply(r) && r.status == 200 && r.body == data,
{
    lemma_put_writes_the_body(m, after, path, true, data);
    lemma_not_a_directory(after, components_of(path), data);
    lemma_get_sends_the_file(after, get, path, data);
}

proof fn lemma_not_a_directory(m: RepoModel, names: Seq<Seq<u8>>, data: Seq<u8>)
    requires
        reads_as(m, names, data),
    ensures
        !has_directory(m, names),
        has_file(m, names),
{
    lemma_own_modes();
    if names.len() == 0 {
        assert(m.entry_at(names) matches Ok(Some(t)) && t.0 == directory_mode());
    }
}

// ---------------------------------------------------------------------------
// Deleting and making directories
// ---------------------------------------------------------------------------

/// DELETE of what is there is a change that takes it out: once it is pushed the
/// path leads to nothing, and what is elsewhere stays. Of what is not there it
/// is answered 404.
pub proof fn lemma_delete_takes_out(
    m: RepoModel,
    after: RepoModel,
    req: RequestModel,
    path: Seq<u8>,
)
    requires
        req.method == text("DELETE"),
        points_to(req, path),
    ensures
        ({
            let names = components_of(path);
            let step = request_step(m, req);
            if ends_in_marker(names) {
                just(step, 405)
            } else if !has_any(m, names) {
                just(step, 404)
            } else {
                step matches StepModel::Perform { change, status } && {
                    &&& status == 204
                    &&& change == if has_directory(m, names) {
                        ChangeModel::DeleteSubtree(path)
                    } else {
                        ChangeModel::DeletePath(path)
                    }
                    &&& m.change_holds(after, change) ==> is_gone(after, names) && forall|
                        other: Seq<Seq<u8>>,
                        old: Seq<u8>,
                    |
                        apart(names, other) && crate::git::objects::utf8_names(other)
                            && #[trigger] reads_as(m, other, old) ==> reads_as(after, other, old)
                }
            }
        }),
{
    lemma_texts();
    assert(req.path.drop_first() =~= path);
    let names = components_of(path);
    lemma_marker(names);
    lemma_file_is_its_object(m, names);
    if request_step(m, req) is Perform && m.change_holds(
        after,
        request_step(m, req)->change,
    ) {
        assert forall|other: Seq<Seq<u8>>, old: Seq<u8>|
            apart(names, other) && crate::git::objects::utf8_names(other) && #[trigger] reads_as(
                m,
                other,
                old,
            ) implies reads_as(after, other, old) by {
            assert(crate::git::repo::stays(m, after, other));
        }
    }
}

/// What was deleted is answered 404.
pub proof fn lemma_deleted_is_not_sent(m: RepoModel, get: RequestModel, path: Seq<u8>)
    requires
        is_gone(m, components_of(path)),
        get.method == text("GET"),
        points_to(get, path),
    ensures
        just(request_step(m, get), 404),
{
    lemma_get_without_body(m, get, path);
    lemma_marker(components_of(path));
    lemma_file_is_its_object(m, components_of(path));
}

/// MKCOL where nothing is makes a directory: once the change is pushed one is
/// at the path, with an empty marker file in it. It is refused where something
/// is, where the directory that it would be in is not there, and with a body.
pub proof fn lemma_mkcol_makes_a_directory(
    m: RepoModel,
    after: RepoModel,
    req: RequestModel,
    path: Seq<u8>,
)
    requires
        req.method == text("MKCOL"),
        points_to(req, path),
    ensures
        ({
            let names = components_of(path);
            let step = request_step(m, req);
            if req.body_size matches Some(n) && n > 0 {
                just(step, 415)
            } else if has_any(m, names) {
                just(step, 405)
            } else if !has_parent(m, names) {
                just(step, 409)
            } else {
                step matches StepModel::Perform { change, status } && {
                    &&& status == 201
                    &&& change == ChangeModel::CreateDir(path)
                    &&& m.change_holds(after, change) ==> has_directory(after, names) && reads_as(
                        after,
                        names.push(text(".DAV")),
                        Seq::empty(),
                    )
                }
            }
        }),
{
    lemma_texts();
    assert(req.path.drop_first() =~= path);
    let names = components_of(path);
    lemma_marker(names);
    lemma_file_is_its_object(m, names);
    if names.len() > 0 {
        lemma_file_is_its_object(m, names.drop_last());
    }
    if m.change_holds(after, ChangeModel::CreateDir(path)) {
        crate::bytes::lemma_position_none(text(".DAV"), 47);
        lemma_joined_components(path, text(".DAV"));
        let marker = names.push(text(".DAV"));
        let tree = after.head_tree()->Ok_0.1;
        lemma_found_above(after.objects, tree, marker, names.len() as int);
        assert(marker.take(names.len() as int) =~= names);
    }
}

// ---------------------------------------------------------------------------
// Copying and moving
// ---------------------------------------------------------------------------

/// COPY and MOVE of what is there, to a place in a directory that is there, and
/// where nothing is or the client lets it be overwritten, are changes with the
/// path and the destination of the request: a copy for COPY, a move for MOVE,
/// whether or not something is at the destination. Else they are refused.
pub proof fn lemma_transfer_is_what_was_asked(
    m: RepoModel,
    req: RequestModel,
    path: Seq<u8>,
    dest: Seq<u8>,
)
    requires
        req.method == text("MOVE") || req.method == text("COPY"),
        points_to(req, path),
        destination_path(req.destination) == Some(dest),
    ensures
        ({
            let from = components_of(path);
            let to = components_of(dest);
            let step = request_step(m, req);
            if ends_in_marker(from) || ends_in_marker(to) || !has_any(m, from) {
                just(step, 404)
            } else if !has_parent(m, to) {
                just(step, 409)
            } else if has_any(m, to) && req.overwrite == Some(text("F")) {
                just(step, 412)
            } else {
                step matches StepModel::Perform { change, status } && {
                    &&& req.method == text("MOVE") ==> change == ChangeModel::Move(path, dest)
                    &&& req.method == text("COPY") ==> change == ChangeModel::Copy(path, dest)
                    &&& has_any(m, to) ==> status == 204
                    &&& !has_any(m, to) ==> status == 201
                }
            }
        }),
{
    lemma_texts();
    assert(req.path.drop_first() =~= path);
    let to = components_of(dest);
    lemma_marker(components_of(path));
    lemma_file_is_its_object(m, components_of(path));
    lemma_marker(to);
    lemma_file_is_its_object(m, to);
    if to.len() > 0 {
        lemma_file_is_its_object(m, to.drop_last());
    }
}

/// Without a destination nothing is copied or moved.
pub proof fn lemma_transfer_needs_a_destination(m: RepoModel, req: RequestModel, path: Seq<u8>)
    requires
        req.method == text("MOVE") || req.method == text("COPY"),
        points_to(req, path),
        destination_path(req.destination) is None,
    ensures
        just(
            request_step(m, req),
            if ends_in_marker(components_of(path)) {
                404
            } else {
                400
            },
        ),
{
    lemma_texts();
    lemma_marker(components_of(path));
    assert(req.path.drop_first() =~= path);
}

/// What a request to MOVE changes, once it is pushed: nothing is at the source,
/// the destination leads to what the source led to, every file below the source
/// is read below the destination, and what is elsewhere stays.
pub proof fn lemma_moved(m: RepoModel, after: RepoModel, req: RequestModel, path: Seq<u8>)
    requires
        req.method == text("MOVE"),
        points_to(req, path),
        request_step(m, req) is Perform,
        m.change_holds(after, request_step(m, req)->change),
    ensures
        destination_path(req.destination) matches Some(dest) && {
            let from = components_of(path);
            let to = components_of(dest);
            &&& is_gone(after, from)
            &&& after.entry_at(to) == m.entry_at(from)
            &&& forall|rest: Seq<Seq<u8>>, old: Seq<u8>| #[trigger]
                reads_as(m, from + rest, old) ==> reads_as(after, to + rest, old)
            &&& forall|other: Seq<Seq<u8>>, old: Seq<u8>|
                apart(from, other) && apart(to, other) && crate::git::objects::utf8_names(other)
                    && #[trigger] reads_as(m, other, old) ==> reads_as(after, other, old)
        },
{
    lemma_texts();
    assert(req.path.drop_first() =~= path);
    let from = components_of(path);
    let to = components_of(destination_path(req.destination)->0);
    assert forall|rest: Seq<Seq<u8>>, old: Seq<u8>| #[trigger]
        reads_as(m, from + rest, old) implies reads_as(after, to + rest, old) by {}
    assert forall|other: Seq<Seq<u8>>, old: Seq<u8>|
        apart(from, other) && apart(to, other) && crate::git::objects::utf8_names(other)
            && #[trigger] reads_as(m, other, old) implies reads_as(after, other, old) by {
        assert(crate::git::repo::stays(m, after, other));
    }
}

/// What a request to COPY changes, once it is pushed: the destination leads to
/// what the source leads to, every file below the source is read below the
/// destination, and what is elsewhere stays, the source too.
pub proof fn lemma_copied(m: RepoModel, after: RepoModel, req: RequestModel, path: Seq<u8>)
    requires
        req.method == text("COPY"),
        points_to(req, path),
        request_step(m, req) is Perform,
        m.change_holds(after, request_step(m, req)->change),
    ensures
        destination_path(req.destination) matches Some(dest) && {
            let from = components_of(path);
            let to = components_of(dest);
            &&& after.entry_at(to) == m.entry_at(from)
            &&& forall|rest: Seq<Seq<u8>>, old: Seq<u8>| #[trigger]
                reads_as(m, from + rest, old) ==> reads_as(after, to + rest, old)
            &&& forall|other: Seq<Seq<u8>>, old: Seq<u8>|
                apart(to, other) && crate::git::objects::utf8_names(other) && #[trigger] reads_as(
                    m,
                    other,
                    old,
                ) ==> reads_as(after, other, old)
        },
{
    lemma_texts();
    assert(req.path.drop_first() =~= path);
    let from = components_of(path);
    let to = components_of(destination_path(req.destination)->0);
    assert forall|rest: Seq<Seq<u8>>, old: Seq<u8>| #[trigger]
        reads_as(m, from + rest, old) implies reads_as(after, to + rest, old) by {}
    assert forall|other: Seq<Seq<u8>>, old: Seq<u8>|
        apart(to, other) && crate::git::objects::utf8_names(other) && #[trigger] reads_as(
            m,
            other,
            old,
        ) implies reads_as(after, other, old) by {
        assert(crate::git::repo::stays(m, after, other));
    }
}

// ---------------------------------------------------------------------------
// Changes
// ---------------------------------------------------------------------------

/// A change that was made is answered with the status that was set for it, and
/// one that failed with 500; neither has more to say.
pub proof fn lemma_change_is_answered(status: u16)
    ensures
        just(StepModel::Reply(change_answer(status, true)), status),
        just(StepModel::Reply(change_answer(status, false)), 500),
{
}

/// A URL that does not begin with a slash is taken as it is.
pub proof fn lemma_url_without_slash(path: Seq<u8>)
    requires
        path.len() == 0 || path[0] != 47,
    ensures
        relative(path) == path,
        relative(seq![47u8] + path) == path,
{
    assert((seq![47u8] + path).drop_first() =~= path);
}

/// Each change is prepared as what it is.
pub proof fn lemma_change_is_prepared_as_it_is(
    m: RepoModel,
    path: Seq<u8>,
    dest: Seq<u8>,
    data: Seq<u8>,
)
    ensures
        m.change_plan(ChangeModel::Write(path, data)) == m.write_plan(path, data),
        m.change_plan(ChangeModel::DeletePath(path)) == m.delete_plan(path),
        m.change_plan(ChangeModel::DeleteSubtree(path)) == m.delete_subtree_plan(path),
        m.change_plan(ChangeModel::CreateDir(path)) == m.create_dir_plan(path),
        m.change_plan(ChangeModel::Copy(path, dest)) == m.transfer_plan(path, dest, false),
        m.change_plan(ChangeModel::Move(path, dest)) == m.transfer_plan(path, dest, true),
{
}

/// A change comes to what it should wherever the trees on its way are sound
/// and no id stands for two contents.
pub proof fn lemma_change_is_promised(
    m: RepoModel,
    path: Seq<u8>,
    data: Seq<u8>,
    plan: PlanModel,
    seconds: int,
)
    requires
        m.head_tree() is Ok,
    ensures
        ({
            let tree = m.head_tree()->Ok_0.1;
            let names = components_of(path);
            &&& sound_path(m.objects, tree, names) ==> m.sound_for(ChangeModel::Write(path, data))
                && m.sound_for(ChangeModel::DeletePath(path)) && m.sound_for(
                ChangeModel::DeleteSubtree(path),
            )
            &&& sound_path(m.objects, tree, names.push(text(".DAV"))) ==> m.sound_for(
                ChangeModel::CreateDir(path),
            )
            &&& no_collision(m.objects, m.writes_of(plan, m.head->0, seconds)) ==> settled(
                m,
                Ok(plan),
                seconds,
            )
        }),
{
    lemma_texts();
    crate::bytes::lemma_position_none(text(".DAV"), 47);
    lemma_joined_components(path, text(".DAV"));
}

/// Trees are sound on a path where each that it leads through is there and
/// sound, and what it leads through are directories.
pub proof fn lemma_sound_step(
    objects: Map<Seq<u8>, Seq<u8>>,
    oid: Seq<u8>,
    names: Seq<Seq<u8>>,
)
    requires
        names.len() > 0,
        objects.contains_key(oid),
        sound_items(tree_items(objects[oid])),
        names.len() > 1 ==> match found(objects, oid, names.take(1)) {
            Ok(Some(t)) => tree_mode(t.0) && sound_path(objects, t.1, names.drop_first()),
            Ok(None) => true,
            Err(_) => false,
        },
    ensures
        sound_path(objects, oid, names),
{
    let one = names.take(1);
    assert(one[0] == names[0]);
}

/// Items are sound where all can be read, no name comes twice, and each entry
/// is in a form that a tree holds unchanged.
pub proof fn lemma_sound_items(es: Seq<EntryModel>)
    requires
        regular_entries(es),
        distinct_names(es),
    ensures
        sound_items(present(es)),
{
    crate::git::lists::lemma_present_readable(es);
}

} // verus!
