//! The file API of a machine: who may use it, what its requests ask for, and
//! what they are answered.

use vstd::prelude::*;

use crate::paths;
use crate::sync_engine::request;
use crate::sync_engine::request::Verb;
use crate::text;
use crate::url;

verus! {

/// The status of a request that makes no sense.
pub const BAD_REQUEST: u16 = 400;

/// The status of a request without the right token.
pub const UNAUTHORIZED: u16 = 401;

/// The status of a request that failed on the disk.
pub const INTERNAL_SERVER_ERROR: u16 = 500;

/// The query of a request on one path, which is escaped as in the address.
#[derive(Debug)]
pub struct PathQuery {
    pub path: String,
}

/// The query of a request that moves a path; both are escaped as in the address.
#[derive(Debug)]
pub struct MoveQuery {
    pub from: String,
    pub to: String,
}

/// An entry of a folder.
#[derive(Debug)]
pub struct FsEntry {
    pub name: String,
    pub is_dir: bool,
    pub size: u64,
    pub mtime: u64,
}

/// What is known of a path.
#[derive(Clone, Copy, Debug, PartialEq, Eq)]
pub struct FsStat {
    pub exists: bool,
    pub is_dir: bool,
    pub size: Option<u64>,
    pub mtime: Option<u64>,
}

/// The token that requests must carry, if there is one.
#[derive(Debug)]
pub struct ApiAuthConfig {
    pub token: Option<String>,
}

/// A refusal: a status and a message.
#[derive(Debug)]
pub struct AppHttpError {
    pub status: u16,
    pub message: String,
}

/// `e` is the refusal with this status and message.
pub open spec fn refuses(e: AppHttpError, status: u16, message: Seq<char>) -> bool {
    e.status == status && e.message@ == message
}

impl AppHttpError {
    /// The refusal of a request that makes no sense.
    pub fn bad_request(message: String) -> (r: AppHttpError)
        ensures
            refuses(r, BAD_REQUEST, message@),
    {
        AppHttpError { status: BAD_REQUEST, message }
    }

    /// The refusal of a request that failed on the disk.
    pub fn from_io(message: String) -> (r: AppHttpError)
        ensures
            refuses(r, INTERNAL_SERVER_ERROR, message@),
    {
        AppHttpError { status: INTERNAL_SERVER_ERROR, message }
    }

    /// The refusal of an upload that cannot be read.
    pub fn from_multipart(message: String) -> (r: AppHttpError)
        ensures
            refuses(r, BAD_REQUEST, message@),
    {
        AppHttpError { status: BAD_REQUEST, message }
    }
}

// ------------------------------------------------------------------------ routes

/// The path of a verb's route.
pub open spec fn route_path(verb: Verb) -> Seq<char> {
    "/api/fs/"@ + verb.word()
}

/// A route: a path, and what is asked for there.
#[derive(Debug)]
pub struct Route {
    pub path: String,
    pub verb: Verb,
}

fn route_of(verb: Verb) -> (r: Route)
    ensures
        r.verb == verb,
        r.path@ == route_path(verb),
{
    Route { path: text::concat("/api/fs/", verb.name()), verb }
}

/// One of `routes` is the verb's.
pub open spec fn serves(routes: Seq<Route>, verb: Verb) -> bool {
    exists|i: int| 0 <= i < routes.len() && (#[trigger] routes[i]).verb == verb
}

/// The routes of the API: one for each verb.
pub fn router() -> (r: Vec<Route>)
    ensures
        forall|i: int|
            0 <= i < r@.len() ==> (#[trigger] r@[i]).path@ == route_path(r@[i].verb),
        forall|verb: Verb| #[trigger] serves(r@, verb),
        forall|i: int, j: int|
            0 <= i < r@.len() && 0 <= j < r@.len() && (#[trigger] r@[i]).verb == (
            #[trigger] r@[j]).verb ==> i == j,
{
    let mut out: Vec<Route> = Vec::new();
    out.push(route_of(Verb::List));
    out.push(route_of(Verb::Stat));
    out.push(route_of(Verb::Download));
    out.push(route_of(Verb::Delete));
    out.push(route_of(Verb::Move));
    out.push(route_of(Verb::Upload));
    proof {
        assert forall|verb: Verb| #[trigger] serves(out@, verb) by {
            match verb {
                Verb::List => assert(out@[0].verb == verb),
                Verb::Stat => assert(out@[1].verb == verb),
                Verb::Download => assert(out@[2].verb == verb),
                Verb::Delete => assert(out@[3].verb == verb),
                Verb::Move => assert(out@[4].verb == verb),
                Verb::Upload => assert(out@[5].verb == verb),
            }
        }
    }
    out
}

// ------------------------------------------------------------------------ tokens

/// A request that carries `provided` may pass: no token is asked for, or it is
/// the right one. A request without a token counts as one with an empty token.
pub open spec fn may_pass(token: Option<Seq<char>>, provided: Option<Seq<char>>) -> bool {
    match token {
        None => true,
        Some(t) => match provided {
            Some(p) => p == t,
            None => t.len() == 0,
        },
    }
}

/// Lets a request pass, or refuses it for its token. `provided` is the token's
/// header, where it is there and can be read.
pub fn require_token(auth: &ApiAuthConfig, provided: Option<&str>) -> (r: Result<(), AppHttpError>)
    ensures
        match r {
            Ok(_) => may_pass(text::optional(auth.token), text::optional_str(provided)),
            Err(e) => !may_pass(text::optional(auth.token), text::optional_str(provided))
                && refuses(e, UNAUTHORIZED, "invalid token"@),
        },
{
    match &auth.token {
        None => Ok(()),
        Some(token) => {
            let given: &str = match provided {
                Some(p) => p,
                None => "",
            };
            proof {
                reveal_strlit("");
                assert(token@.len() == 0 ==> token@ =~= ""@);
            }
            if text::same_text(given, token.as_str()) {
                Ok(())
            } else {
                Err(
                    AppHttpError {
                        status: UNAUTHORIZED,
                        message: "invalid token".to_string(),
                    },
                )
            }
        },
    }
}

// ------------------------------------------------------------------------- paths

/// The path that a query's value names, or nothing where it is refused.
pub open spec fn named_path(raw: Seq<char>) -> Option<Seq<char>> {
    match url::decode(raw) {
        Some(p) if p.len() > 0 => Some(p),
        _ => None,
    }
}

/// `e` is the refusal of a query whose path cannot be read: its escapes are no
/// text, or it is empty.
pub open spec fn refuses_path(e: AppHttpError, raw: Seq<char>) -> bool {
    match url::decode(raw) {
        None => e.status == BAD_REQUEST,
        Some(p) => refuses(e, BAD_REQUEST, "path is empty"@),
    }
}

/// Calls the `Display` form of `std::string::FromUtf8Error`. Its wording is the
/// standard library's, and nothing is said of it.
#[verifier::external_body]
fn utf8_complaint(e: &std::string::FromUtf8Error) -> (r: String) {
    e.to_string()
}

/// The path that a query names: it is refused where its escapes are no text, or
/// where it is empty.
pub fn decode_path(raw: &str) -> (r: Result<String, AppHttpError>)
    ensures
        match r {
            Ok(p) => named_path(raw@) == Some(p@),
            Err(e) => named_path(raw@) is None && refuses_path(e, raw@),
        },
{
    match url::decode_component(raw) {
        Err(e) => Err(AppHttpError::bad_request(utf8_complaint(&e))),
        Ok(path) => {
            if path.as_str().is_empty() {
                Err(AppHttpError::bad_request("path is empty".to_string()))
            } else {
                Ok(path)
            }
        },
    }
}

// ----------------------------------------------------------------------- answers

/// What a move does.
#[derive(Debug)]
pub enum MoveStep {
    /// There is nothing to move: the request is answered as done.
    Nothing,
    /// Make the folder, if there is one to make, and rename.
    Rename { folder: Option<String>, from: String, to: String },
}

/// `e` is the refusal of a query without the field `name`, or with two of them.
pub open spec fn refuses_field(e: AppHttpError, name: Seq<char>) -> bool {
    refuses(e, BAD_REQUEST, "expected one field: "@ + name)
}

fn require_field(query: &str, name: &str) -> (r: Result<String, AppHttpError>)
    ensures
        match r {
            Ok(v) => url::value_of(query@, name@) == Some(v@),
            Err(e) => url::value_of(query@, name@) is None && refuses_field(e, name@),
        },
{
    match url::query_value(query, name) {
        Some(v) => Ok(v),
        None => Err(AppHttpError::bad_request(text::concat("expected one field: ", name))),
    }
}

/// The path that a request's query asks for.
pub open spec fn asked_path(query: Seq<char>) -> Option<Seq<char>> {
    match url::value_of(query, "path"@) {
        Some(v) => named_path(v),
        None => None,
    }
}

/// Reads the path that a request's query asks for. It is unescaped once.
pub fn path_of_query(query: &str) -> (r: Result<String, AppHttpError>)
    ensures
        match r {
            Ok(p) => asked_path(query@) == Some(p@),
            Err(e) => asked_path(query@) is None && match url::value_of(query@, "path"@) {
                Some(v) => refuses_path(e, v),
                None => refuses_field(e, "path"@),
            },
        },
{
    let path: String = match require_field(query, "path") {
        Ok(v) => v,
        Err(e) => {
            return Err(e);
        },
    };
    read_path(&PathQuery { path })
}

/// The two fields of a renaming's query, where both are there.
pub open spec fn move_fields(query: Seq<char>) -> Option<(Seq<char>, Seq<char>)> {
    match (url::value_of(query, "from"@), url::value_of(query, "to"@)) {
        (Some(f), Some(t)) => Some((f, t)),
        _ => None,
    }
}

/// The two paths that a renaming's query asks for.
pub open spec fn asked_move(query: Seq<char>) -> Option<(Seq<char>, Seq<char>)> {
    match move_fields(query) {
        Some(p) => match (named_path(p.0), named_path(p.1)) {
            (Some(f), Some(t)) => Some((f, t)),
            _ => None,
        },
        None => None,
    }
}

/// Reads the two paths that a renaming's query asks for, each unescaped once.
pub fn move_of_query(query: &str) -> (r: Result<(String, String), AppHttpError>)
    ensures
        match r {
            Ok(p) => asked_move(query@) == Some((p.0@, p.1@)),
            Err(e) => asked_move(query@) is None && match move_fields(query@) {
                Some(p) => if named_path(p.0) is None {
                    refuses_path(e, p.0)
                } else {
                    refuses_path(e, p.1)
                },
                None => if url::value_of(query@, "from"@) is None {
                    refuses_field(e, "from"@)
                } else {
                    refuses_field(e, "to"@)
                },
            },
        },
{
    let from: String = match require_field(query, "from") {
        Ok(v) => v,
        Err(e) => {
            return Err(e);
        },
    };
    let to: String = match require_field(query, "to") {
        Ok(v) => v,
        Err(e) => {
            return Err(e);
        },
    };
    read_move(&MoveQuery { from, to })
}

/// Reads the path of a request on one path.
pub fn read_path(query: &PathQuery) -> (r: Result<String, AppHttpError>)
    ensures
        match r {
            Ok(p) => named_path(query.path@) == Some(p@),
            Err(e) => named_path(query.path@) is None && refuses_path(e, query.path@),
        },
{
    decode_path(query.path.as_str())
}

/// Reads the two paths of a move; the first that cannot be read refuses it.
pub fn read_move(query: &MoveQuery) -> (r: Result<(String, String), AppHttpError>)
    ensures
        match r {
            Ok(p) => named_path(query.from@) == Some(p.0@) && named_path(query.to@) == Some(p.1@),
            Err(e) => if named_path(query.from@) is None {
                refuses_path(e, query.from@)
            } else {
                named_path(query.to@) is None && refuses_path(e, query.to@)
            },
        },
{
    let from: String = match decode_path(query.from.as_str()) {
        Ok(p) => p,
        Err(e) => {
            return Err(e);
        },
    };
    let to: String = match decode_path(query.to.as_str()) {
        Ok(p) => p,
        Err(e) => {
            return Err(e);
        },
    };
    Ok((from, to))
}

/// What a move does: nothing where the path is gone, else a renaming, after
/// `folder` was made, if there is one.
pub fn move_step(from: String, to: String, from_exists: bool, folder: Option<String>) -> (r:
    MoveStep)
    ensures
        r == if from_exists {
            MoveStep::Rename { folder, from, to }
        } else {
            MoveStep::Nothing
        },
{
    if from_exists {
        MoveStep::Rename { folder, from, to }
    } else {
        MoveStep::Nothing
    }
}

/// What a move does: nothing where the path is gone, else a renaming, after the
/// folder of the new name was made.
pub fn move_path(from: String, to: String, from_exists: bool) -> (r: MoveStep)
    ensures
        match r {
            MoveStep::Nothing => !from_exists,
            MoveStep::Rename { folder, from: f, to: t } => from_exists && f@ == from@ && t@ == to@
                && paths::above(text::optional(folder), to@),
        },
{
    let folder = paths::parent_of(to.as_str());
    move_step(from, to, from_exists, folder)
}

/// What a deletion does.
#[derive(Clone, Copy, Debug, PartialEq, Eq, Structural)]
pub enum DeleteStep {
    /// There is nothing to delete: the request is answered as done.
    Nothing,
    RemoveFolder,
    RemoveFile,
}

/// What a deletion does. `is_dir` is looked at only where the path exists.
pub fn delete_path(exists_now: bool, is_dir: bool) -> (r: DeleteStep)
    ensures
        r == if !exists_now {
            DeleteStep::Nothing
        } else if is_dir {
            DeleteStep::RemoveFolder
        } else {
            DeleteStep::RemoveFile
        },
{
    if !exists_now {
        DeleteStep::Nothing
    } else if is_dir {
        DeleteStep::RemoveFolder
    } else {
        DeleteStep::RemoveFile
    }
}

/// What the disk says of a path.
#[derive(Clone, Copy, Debug)]
pub struct Metadata {
    pub is_dir: bool,
    pub len: u64,
    /// The seconds of the last change since 1970, where they can be told.
    pub mtime: Option<u64>,
}

/// The answer on a path, of which the disk says something if it exists.
pub fn stat_path(metadata: Option<Metadata>) -> (r: FsStat)
    ensures
        match metadata {
            Some(m) => r.exists && r.is_dir == m.is_dir && r.size == Some(m.len) && r.mtime
                == m.mtime,
            None => !r.exists && !r.is_dir && r.size is None && r.mtime is None,
        },
{
    match metadata {
        Some(m) => FsStat { exists: true, is_dir: m.is_dir, size: Some(m.len), mtime: m.mtime },
        None => FsStat { exists: false, is_dir: false, size: None, mtime: None },
    }
}

/// An entry of a listing; a time that cannot be told is 0.
pub fn list_entry(name: String, metadata: Metadata) -> (r: FsEntry)
    ensures
        r.name == name,
        r.is_dir == metadata.is_dir,
        r.size == metadata.len,
        r.mtime == match metadata.mtime {
            Some(t) => t,
            None => 0,
        },
{
    FsEntry {
        name,
        is_dir: metadata.is_dir,
        size: metadata.len,
        mtime: metadata.mtime.unwrap_or(0),
    }
}

/// The name under which an uploaded file is stored.
pub open spec fn stored_name(file_name: Option<Seq<char>>) -> Seq<char> {
    match file_name {
        Some(n) => n,
        None => "unnamed.bin"@,
    }
}

fn stays_inside(name: &str, sep: char) -> (r: bool)
    ensures
        r == paths::stays_in(name@, sep),
{
    let v = text::chars_of(name);
    let n: usize = v.len();
    proof {
        if name@.len() == 1 && name@[0] == '.' {
            assert(name@ =~= seq!['.']);
        }
        if name@.len() == 2 && name@[0] == '.' && name@[1] == '.' {
            assert(name@ =~= seq!['.', '.']);
        }
    }
    if n == 0 || (n == 1 && v[0] == '.') || (n == 2 && v[0] == '.' && v[1] == '.') {
        return false;
    }
    if text::has_char(name, '/') {
        return false;
    }
    sep != '\\' || (!text::has_char(name, '\\') && !paths::begins_with_drive(name))
}

/// A file name as it is joined to its folder. Where it looks like a root or a
/// drive, a dot and a slash stand before it, which lead to the folder itself.
pub open spec fn entry_text(name: Seq<char>) -> Seq<char> {
    if paths::unrooted(name) {
        name
    } else {
        "./"@ + name
    }
}

/// `r` is what comes of storing a file in `dest_dir` under `name`, where `sep`
/// separates names: a place in that folder itself, or a refusal where the name
/// leads elsewhere.
pub open spec fn stored_at(
    r: Result<String, AppHttpError>,
    dest_dir: Seq<char>,
    name: Seq<char>,
    sep: char,
) -> bool {
    match r {
        Ok(place) => paths::stays_in(name, sep) && (paths::joinable(dest_dir) ==> paths::joined(
            place@,
            dest_dir,
            entry_text(name),
        )),
        Err(e) => !paths::stays_in(name, sep) && refuses(e, BAD_REQUEST, "invalid file name"@),
    }
}

/// The place in `dest_dir` where an uploaded file is stored, where `sep`
/// separates the names of a path beside the slash.
pub fn upload_place(dest_dir: &str, file_name: Option<&str>, sep: char) -> (r: Result<
    String,
    AppHttpError,
>)
    ensures
        stored_at(r, dest_dir@, stored_name(text::optional_str(file_name)), sep),
{
    let name: &str = match file_name {
        Some(n) => n,
        None => "unnamed.bin",
    };
    if !stays_inside(name, sep) {
        return Err(AppHttpError::bad_request("invalid file name".to_string()));
    }
    let v = text::chars_of(name);
    proof {
        reveal_strlit("./");
        assert(name@.contains(name@[0]));
    }
    if v[0] == '\\' || paths::begins_with_drive(name) {
        let entry: String = text::concat("./", name);
        Ok(paths::join_path(dest_dir, entry.as_str()))
    } else {
        Ok(paths::join_path(dest_dir, name))
    }
}

/// The place in `dest_dir` where an uploaded file is stored, on this platform.
pub fn upload_file(dest_dir: &str, file_name: Option<&str>) -> (r: Result<String, AppHttpError>)
    ensures
        exists|sep: char|
            paths::separator(sep) && #[trigger] stored_at(
                r,
                dest_dir@,
                stored_name(text::optional_str(file_name)),
                sep,
            ),
{
    let sep: char = paths::main_separator();
    upload_place(dest_dir, file_name, sep)
}

/// The address that the API listens on.
pub fn bind_address(bind_ip: &str, port: u16) -> (r: String)
    ensures
        r@ == bind_ip@ + ":"@ + text::decimal(port as nat),
{
    let mut out: String = bind_ip.to_string();
    out.append(":");
    out.append(text::decimal_text(port as u64).as_str());
    out
}

// ------------------------------------------------------------------------- laws

/// Whatever the platform, a file that comes without a name is stored, and none
/// is stored under a name that is empty, holds a slash, or leads to the folder
/// or above it.
pub proof fn law_uploads_stay_in_their_folder(name: Seq<char>, sep: char)
    ensures
        paths::stays_in(stored_name(None), sep),
        paths::stays_in(name, sep) ==> name.len() > 0 && !name.contains('/') && name != "."@ && name
            != ".."@,
        sep != '\\' ==> (paths::stays_in(name, sep) <==> name.len() > 0 && !name.contains('/')
            && name != "."@ && name != ".."@),
{
    reveal_strlit("unnamed.bin");
    reveal_strlit(".");
    reveal_strlit("..");
    assert("."@ =~= seq!['.']);
    assert(".."@ =~= seq!['.', '.']);
    let n = stored_name(None);
    assert(n.len() == 11);
    assert(n[1] == 'n');
    assert(!n.contains('/') && !n.contains('\\'));
}

/// A request is refused for its token only where one is asked for and the
/// request does not carry it: a client that was given the machine's own token
/// always passes, and any client passes where none is asked for.
pub proof fn law_the_right_token_passes(token: Option<Seq<char>>, provided: Option<Seq<char>>)
    ensures
        may_pass(token, token),
        may_pass(None, provided),
        token is Some && token->0.len() > 0 ==> (may_pass(token, provided) <==> provided == token),
{
}

/// What a client asks for is what the API reads: the query in the address of a
/// request asks for the path that the request was made for, whatever it holds.
pub proof fn law_request_names_its_path(
    verb: Verb,
    peer: Seq<char>,
    path: Seq<char>,
    token: Option<Seq<char>>,
)
    requires
        path.len() > 0,
        !peer.contains('?'),
    ensures
        asked_path(url::query_of(request::path_request(verb, peer, path, token).url)) == Some(path),
{
    lemma_word(verb);
    url::law_address_carries_its_path(peer, verb.word(), path);
    url::law_decode_inverts_encode(path);
}

/// An upload is stored in the folder that the client asked for.
pub proof fn law_upload_names_its_folder(
    peer: Seq<char>,
    dir: Seq<char>,
    local_path: Seq<char>,
    file_name: Seq<char>,
    token: Option<Seq<char>>,
)
    requires
        dir.len() > 0,
        !peer.contains('?'),
    ensures
        asked_path(
            url::query_of(request::upload_request(peer, dir, local_path, file_name, token).url),
        ) == Some(dir),
{
    law_request_names_its_path(Verb::Upload, peer, dir, token);
}

/// A renaming that a client asks for is the one that the API reads.
pub proof fn law_move_names_its_paths(
    peer: Seq<char>,
    from: Seq<char>,
    to: Seq<char>,
    token: Option<Seq<char>>,
)
    requires
        from.len() > 0,
        to.len() > 0,
        !peer.contains('?'),
    ensures
        asked_move(url::query_of(request::move_request(peer, from, to, token).url)) == Some(
            (from, to),
        ),
{
    url::law_address_carries_both_paths(peer, from, to);
    url::law_decode_inverts_encode(from);
    url::law_decode_inverts_encode(to);
}

proof fn lemma_word(verb: Verb)
    ensures
        !verb.word().contains('?'),
{
    reveal_strlit("list");
    reveal_strlit("stat");
    reveal_strlit("download");
    reveal_strlit("delete");
    reveal_strlit("move");
    reveal_strlit("upload");
    let w = verb.word();
    assert forall|i: int| 0 <= i < w.len() implies w[i] != '?' by {}
}

/// The address of a request leads to the route of its verb.
pub proof fn law_request_finds_its_route(
    verb: Verb,
    peer: Seq<char>,
    path: Seq<char>,
    token: Option<Seq<char>>,
)
    ensures
        text::begins(
            request::path_request(verb, peer, path, token).url,
            "http://"@ + peer + ":7733"@ + route_path(verb),
        ),
{
    reveal_strlit(":7733/api/fs/");
    reveal_strlit(":7733");
    reveal_strlit("/api/fs/");
    let u = request::path_request(verb, peer, path, token).url;
    let p = "http://"@ + peer + ":7733"@ + route_path(verb);
    assert(":7733/api/fs/"@ =~= ":7733"@ + "/api/fs/"@);
    assert(u.take(p.len() as int) =~= p);
}

/// Where a token is asked for, a request passes exactly if it carries it. One
/// without a token carries the empty one.
pub proof fn law_only_the_token_passes(token: Seq<char>, provided: Seq<char>)
    ensures
        may_pass(Some(token), Some(provided)) <==> provided == token,
        may_pass(Some(token), None) <==> token == Seq::<char>::empty(),
{
    if token.len() == 0 {
        assert(token =~= Seq::empty());
    }
}

/// Each verb has a route of its own, under the path of the API.
pub proof fn law_routes_are_told_apart(a: Verb, b: Verb)
    ensures
        route_path(a) == "/api/fs/"@ + a.word(),
        route_path(a) == route_path(b) ==> a == b,
{
    request::law_verbs_are_told_apart(a, b);
    if route_path(a) == route_path(b) {
        let n = "/api/fs/"@.len() as int;
        assert(route_path(a).skip(n) =~= a.word());
        assert(route_path(b).skip(n) =~= b.word());
    }
}

/// Every path but the empty one is read from its escaped form, and the empty one
/// is refused with its own words.
pub proof fn law_escaped_path_is_read(path: Seq<char>, e: AppHttpError)
    ensures
        path.len() > 0 ==> named_path(url::encode(path)) == Some(path),
        named_path(url::encode(Seq::<char>::empty())) is None,
        refuses_path(e, url::encode(Seq::<char>::empty())) ==> e.status == 400 && e.message@
            == "path is empty"@,
        named_path(path) is None && refuses_path(e, path) ==> e.status == 400,
{
    url::law_decode_inverts_encode(path);
    url::law_decode_inverts_encode(Seq::empty());
}

/// A file is stored under the name that it comes with; where backslashes and
/// drives lead elsewhere, exactly the names without them are taken.
pub proof fn law_stored_under_its_name(name: Seq<char>)
    ensures
        stored_name(Some(name)) == name,
        stored_name(None) == "unnamed.bin"@,
        paths::stays_in(name, '\\') <==> paths::stays_in(name, '/') && !name.contains('\\') && !(
        name.len() >= 2 && name[1] == ':' && ('A' <= name[0] <= 'Z' || 'a' <= name[0] <= 'z')),
        paths::stays_in(name, '/') && name[0] != '\\' && !paths::drive_first(name)
            ==> entry_text(name) == name,
        entry_text(name) == name || entry_text(name) == "./"@ + name,
{
    if paths::stays_in(name, '/') {
        assert(name.contains(name[0]));
    }
}

/// A move is addressed to its route.
pub proof fn law_move_finds_its_route(
    peer: Seq<char>,
    from: Seq<char>,
    to: Seq<char>,
    token: Option<Seq<char>>,
)
    ensures
        text::begins(
            request::move_request(peer, from, to, token).url,
            "http://"@ + peer + ":7733"@ + route_path(Verb::Move) + "?"@,
        ),
{
    reveal_strlit(":7733/api/fs/move?from=");
    reveal_strlit(":7733");
    reveal_strlit("/api/fs/");
    reveal_strlit("move");
    reveal_strlit("?");
    let u = request::move_request(peer, from, to, token).url;
    let p = "http://"@ + peer + ":7733"@ + route_path(Verb::Move) + "?"@;
    let tail = ":7733"@ + route_path(Verb::Move) + "?"@;
    assert(":7733/api/fs/move?from="@.take(tail.len() as int) =~= tail);
    assert(p =~= "http://"@ + peer + tail);
    assert(u.take(p.len() as int) =~= p);
}

/// An upload that is taken lies in the folder that was asked for, under its name;
/// one is refused only for a name that leads elsewhere.
pub proof fn law_upload_lies_in_its_folder(
    r: Result<String, AppHttpError>,
    dest_dir: Seq<char>,
    name: Seq<char>,
    sep: char,
)
    requires
        stored_at(r, dest_dir, name, sep),
    ensures
        r is Ok <==> paths::stays_in(name, sep),
        r matches Err(e) ==> e.status == 400 && e.message@ == "invalid file name"@,
        r matches Ok(place) ==> (dest_dir.len() > 0 && paths::joinable(dest_dir)
            && !paths::separator(dest_dir.last()) && !paths::bare_drive(dest_dir) && name[0] != '\\'
            && !paths::drive_first(name) ==> place@ == dest_dir.push('/') + name || place@
            == dest_dir.push('\\') + name),
{
    if r is Ok {
        law_stored_under_its_name(name);
        assert(name.contains(name[0]));
        assert(paths::stays_in(name, '/'));
        if paths::joinable(dest_dir) && name[0] != '\\' && !paths::drive_first(name) {
            paths::law_joined_name_stands_behind(dest_dir, name, r->Ok_0@);
        }
    }
}

/// A refusal has the status and the words that are said of it, and a missing
/// field is named.
pub proof fn law_refusals_say_why(e: AppHttpError, status: u16, message: Seq<char>, name: Seq<char>)
    ensures
        refuses(e, status, message) <==> e.status == status && e.message@ == message,
        refuses_field(e, name) ==> e.status == 400 && e.message@ == "expected one field: "@ + name,
        BAD_REQUEST == 400 && UNAUTHORIZED == 401 && INTERNAL_SERVER_ERROR == 500,
{
}

/// A verb is served exactly if one of the routes is its own.
pub proof fn law_served_verb_has_a_route(routes: Seq<Route>, verb: Verb)
    ensures
        serves(routes, verb) <==> exists|i: int|
            0 <= i < routes.len() && (#[trigger] routes[i]).verb == verb,
{
}

/// A move is read from its two fields, and neither may be missing.
pub proof fn law_move_needs_both_fields(query: Seq<char>)
    ensures
        move_fields(query) is Some <==> url::value_of(query, "from"@) is Some && url::value_of(
            query,
            "to"@,
        ) is Some,
        move_fields(query) matches Some(p) ==> url::value_of(query, "from"@) == Some(p.0)
            && url::value_of(query, "to"@) == Some(p.1),
        asked_move(query) matches Some(p) ==> (move_fields(query) matches Some(f) && named_path(f.0)
            == Some(p.0) && named_path(f.1) == Some(p.1)),
        asked_path(query) is Some ==> url::value_of(query, "path"@) is Some && asked_path(query)
            == named_path(url::value_of(query, "path"@)->0),
{
}

} // verus!
