//! The requests that are sent to a peer's file API, and how often they are
//! tried.

use vstd::prelude::*;

use crate::error::OpenBoltError;
use crate::text;
use crate::url;

verus! {

/// The header that carries the token.
pub const TOKEN_HEADER: &'static str = "x-openbolt-token";

/// The number of times that a request is tried.
pub const MAX_TRIES: u32 = 3;

/// What a request asks of the file API.
#[derive(Clone, Copy, Debug, PartialEq, Eq, Structural)]
pub enum Verb {
    List,
    Stat,
    Download,
    Delete,
    Move,
    Upload,
}

impl Verb {
    /// The last part of the verb's route.
    pub open spec fn word(self) -> Seq<char> {
        match self {
            Verb::List => "list"@,
            Verb::Stat => "stat"@,
            Verb::Download => "download"@,
            Verb::Delete => "delete"@,
            Verb::Move => "move"@,
            Verb::Upload => "upload"@,
        }
    }

    /// The verb changes something at the peer and is sent as a POST; the others
    /// are sent as a GET.
    pub open spec fn changes(self) -> bool {
        self is Delete || self is Move || self is Upload
    }

    /// The last part of the verb's route.
    pub fn name(self) -> (r: &'static str)
        ensures
            r@ == self.word(),
    {
        match self {
            Verb::List => "list",
            Verb::Stat => "stat",
            Verb::Download => "download",
            Verb::Delete => "delete",
            Verb::Move => "move",
            Verb::Upload => "upload",
        }
    }

    /// Whether the verb is sent as a POST.
    pub fn is_post(self) -> (r: bool)
        ensures
            r == self.changes(),
    {
        match self {
            Verb::Delete | Verb::Move | Verb::Upload => true,
            _ => false,
        }
    }
}

/// The file that an upload sends, and the name that it is sent under.
#[derive(Debug)]
pub struct Upload {
    pub local_path: String,
    pub file_name: String,
}

/// A request to a peer. The file is present in uploads alone.
#[derive(Debug)]
pub struct PeerRequest {
    pub verb: Verb,
    pub url: String,
    pub api_token: Option<String>,
    pub file: Option<Upload>,
}

/// What a request says.
pub struct RequestView {
    pub verb: Verb,
    pub url: Seq<char>,
    pub api_token: Option<Seq<char>>,
    pub file: Option<(Seq<char>, Seq<char>)>,
}

impl View for PeerRequest {
    type V = RequestView;

    open spec fn view(&self) -> RequestView {
        RequestView {
            verb: self.verb,
            url: self.url@,
            api_token: text::optional(self.api_token),
            file: match self.file {
                Some(u) => Some((u.local_path@, u.file_name@)),
                None => None,
            },
        }
    }
}

/// The request for `verb` on one path of the peer.
pub open spec fn path_request(
    verb: Verb,
    peer: Seq<char>,
    path: Seq<char>,
    token: Option<Seq<char>>,
) -> RequestView {
    RequestView {
        verb,
        url: url::fs_address(peer, verb.word(), path),
        api_token: token,
        file: None,
    }
}

/// The request that moves `from` to `to` at the peer.
pub open spec fn move_request(
    peer: Seq<char>,
    from: Seq<char>,
    to: Seq<char>,
    token: Option<Seq<char>>,
) -> RequestView {
    RequestView {
        verb: Verb::Move,
        url: url::move_address(peer, from, to),
        api_token: token,
        file: None,
    }
}

/// The request that sends the file `local_path` into the folder `dir` of the
/// peer, under the name `file_name`.
pub open spec fn upload_request(
    peer: Seq<char>,
    dir: Seq<char>,
    local_path: Seq<char>,
    file_name: Seq<char>,
    token: Option<Seq<char>>,
) -> RequestView {
    RequestView {
        verb: Verb::Upload,
        url: url::fs_address(peer, "upload"@, dir),
        api_token: token,
        file: Some((local_path, file_name)),
    }
}

/// The request for `verb` on one path of the peer.
pub fn request_on(verb: Verb, peer_ip: &str, path: &str, api_token: Option<&str>) -> (r: PeerRequest)
    ensures
        r@ == path_request(verb, peer_ip@, path@, text::optional_str(api_token)),
{
    PeerRequest {
        verb,
        url: url::fs_url(peer_ip, verb.name(), path),
        api_token: text::own_optional(api_token),
        file: None,
    }
}

/// The request that moves `from` to `to` at the peer.
pub fn request_move(peer_ip: &str, from: &str, to: &str, api_token: Option<&str>) -> (r:
    PeerRequest)
    ensures
        r@ == move_request(peer_ip@, from@, to@, text::optional_str(api_token)),
{
    PeerRequest {
        verb: Verb::Move,
        url: url::move_url(peer_ip, from, to),
        api_token: text::own_optional(api_token),
        file: None,
    }
}

/// The request that sends the file `local_path` into the folder `dir` of the
/// peer, under the name `file_name`.
pub fn request_upload(
    peer_ip: &str,
    dir: &str,
    local_path: &str,
    file_name: &str,
    api_token: Option<&str>,
) -> (r: PeerRequest)
    ensures
        r@ == upload_request(
            peer_ip@,
            dir@,
            local_path@,
            file_name@,
            text::optional_str(api_token),
        ),
{
    PeerRequest {
        verb: Verb::Upload,
        url: url::fs_url(peer_ip, "upload", dir),
        api_token: text::own_optional(api_token),
        file: Some(
            Upload { local_path: local_path.to_string(), file_name: file_name.to_string() },
        ),
    }
}

/// The header that a request carries: the token's, where there is a token.
pub fn with_token(api_token: Option<&str>) -> (r: Option<(&'static str, String)>)
    ensures
        match api_token {
            Some(t) => r matches Some(h) && h.0@ == TOKEN_HEADER@ && h.1@ == t@,
            None => r is None,
        },
{
    match api_token {
        Some(t) => Some((TOKEN_HEADER, t.to_string())),
        None => None,
    }
}

// ------------------------------------------------------------------------ tries

/// What came of one try.
#[derive(Debug)]
pub enum Reply {
    /// The peer answered with a success status.
    Success,
    /// The peer answered with another status, given in words.
    Status(String),
    /// There was no answer, for the reason given in words.
    Failed(String),
}

/// What follows a try.
#[derive(Debug)]
pub enum Next {
    /// The request has succeeded.
    Done,
    /// Wait the milliseconds, and try again.
    WaitAndTry(u64),
    /// Wait the milliseconds, and give up with the error.
    WaitAndFail(u64, OpenBoltError),
    /// Give up with the error at once.
    Fail(OpenBoltError),
}

/// What is said of a try that did not succeed.
pub open spec fn complaint(verb: Verb, attempt: nat, reply: Reply) -> Seq<char> {
    match reply {
        Reply::Success => Seq::empty(),
        Reply::Status(s) => verb.word() + " failed (attempt "@ + text::decimal(attempt) + "): "@
            + s@,
        Reply::Failed(s) => verb.word() + " request failed (attempt "@ + text::decimal(attempt)
            + "): "@ + s@,
    }
}

/// `e` says that a command failed, in the words `message`.
pub open spec fn failed_with(e: OpenBoltError, message: Seq<char>) -> bool {
    e matches OpenBoltError::CommandFailed(s) && s@ == message
}

/// What follows the try number `attempt` of a request for `verb`.
pub open spec fn follows(verb: Verb, attempt: u32, reply: Reply, next: Next) -> bool {
    if reply is Success {
        next is Done
    } else if attempt < MAX_TRIES {
        next == Next::WaitAndTry((200 * attempt) as u64)
    } else if verb is Upload {
        next matches Next::Fail(e) && failed_with(e, complaint(verb, attempt as nat, reply))
    } else {
        next matches Next::WaitAndFail(ms, e) && ms == 200 * attempt && failed_with(
            e,
            complaint(verb, attempt as nat, reply),
        )
    }
}

/// What follows the try number `attempt`, counted from one. An upload that has
/// failed for the last time is given up at once; the other requests are given
/// up after one more wait.
pub fn after_try(verb: Verb, attempt: u32, reply: Reply) -> (next: Next)
    requires
        1 <= attempt <= MAX_TRIES,
    ensures
        follows(verb, attempt, reply, next),
{
    let ghost given = reply;
    let wait: u64 = 200 * (attempt as u64);
    let mut message: String = verb.name().to_string();
    match reply {
        Reply::Success => {
            return Next::Done;
        },
        Reply::Status(s) => {
            message.append(" failed (attempt ");
            message.append(text::decimal_text(attempt as u64).as_str());
            message.append("): ");
            message.append(s.as_str());
        },
        Reply::Failed(s) => {
            message.append(" request failed (attempt ");
            message.append(text::decimal_text(attempt as u64).as_str());
            message.append("): ");
            message.append(s.as_str());
        },
    }
    if attempt < MAX_TRIES {
        return Next::WaitAndTry(wait);
    }
    let err = OpenBoltError::CommandFailed(message);
    assert(failed_with(err, complaint(verb, attempt as nat, given)));
    if verb.is_upload() {
        Next::Fail(err)
    } else {
        Next::WaitAndFail(wait, err)
    }
}

impl Verb {
    fn is_upload(self) -> (r: bool)
        ensures
            r == (self is Upload),
    {
        match self {
            Verb::Upload => true,
            _ => false,
        }
    }
}

// ------------------------------------------------------------------------- laws

/// The tries of a request: each follows a try that failed and allowed another.
pub open spec fn try_history(verb: Verb, replies: Seq<Reply>, nexts: Seq<Next>) -> bool {
    &&& replies.len() == nexts.len()
    &&& forall|i: int|
        0 <= i < replies.len() ==> follows(verb, (i + 1) as u32, #[trigger] replies[i], nexts[i])
    &&& forall|i: int| 0 <= i < nexts.len() - 1 ==> #[trigger] nexts[i] is WaitAndTry
}

/// No request is tried more than three times, and only a success ends it well.
pub proof fn law_tries_are_bounded(verb: Verb, replies: Seq<Reply>, nexts: Seq<Next>)
    requires
        try_history(verb, replies, nexts),
    ensures
        replies.len() <= MAX_TRIES,
        replies.len() > 0 ==> (nexts.last() is Done <==> replies.last() is Success),
        replies.len() == MAX_TRIES ==> nexts.last() !is WaitAndTry,
        forall|i: int| 0 <= i < replies.len() - 1 ==> !(#[trigger] replies[i] is Success),
{
    assert forall|i: int| 0 <= i < replies.len() - 1 implies !(#[trigger] replies[i] is Success) by {
        assert(nexts[i] is WaitAndTry);
    }
    if replies.len() > MAX_TRIES {
        assert(nexts[2] is WaitAndTry);
        assert(follows(verb, 3, replies[2], nexts[2]));
        assert(false);
    }
    if replies.len() > 0 {
        let i = replies.len() - 1;
        assert(follows(verb, (i + 1) as u32, replies[i], nexts[i]));
    }
}

/// A request carries what it was made with: its verb, its token, and, in an
/// upload alone, the file and its name.
pub proof fn law_request_carries_what_it_is_made_with(
    verb: Verb,
    peer: Seq<char>,
    path: Seq<char>,
    other: Seq<char>,
    token: Option<Seq<char>>,
)
    ensures
        path_request(verb, peer, path, token).verb == verb,
        path_request(verb, peer, path, token).api_token == token,
        path_request(verb, peer, path, token).file is None,
        move_request(peer, path, other, token).verb is Move,
        move_request(peer, path, other, token).api_token == token,
        move_request(peer, path, other, token).file is None,
        upload_request(peer, path, path, other, token).verb is Upload,
        upload_request(peer, path, path, other, token).api_token == token,
        upload_request(peer, path, path, other, token).file == Some((path, other)),
        upload_request(peer, path, path, other, token).url == path_request(
            Verb::Upload,
            peer,
            path,
            token,
        ).url,
{
}

/// What changes something at the peer is posted, and what only reads is not; no
/// two verbs have one word.
pub proof fn law_verbs_are_told_apart(a: Verb, b: Verb)
    ensures
        a.changes() <==> a == Verb::Delete || a == Verb::Move || a == Verb::Upload,
        a.word() == b.word() ==> a == b,
        Verb::List.word() == "list"@,
        Verb::Stat.word() == "stat"@,
        Verb::Download.word() == "download"@,
        Verb::Delete.word() == "delete"@,
        Verb::Move.word() == "move"@,
        Verb::Upload.word() == "upload"@,
{
    reveal_strlit("list");
    reveal_strlit("stat");
    reveal_strlit("download");
    reveal_strlit("delete");
    reveal_strlit("move");
    reveal_strlit("upload");
    assert("list"@[0] == 'l' && "stat"@[0] == 's' && "move"@[0] == 'm' && "upload"@[0] == 'u');
    assert("download"@.len() == 8 && "delete"@.len() == 6);
    assert("download"@[0] == 'd' && "delete"@[0] == 'd');
}

/// A try that succeeded is the last. Of those that did not, the first two are
/// followed by another, after a fifth of a second for each try so far; the third
/// is the last, and for all but uploads there is one more wait.
pub proof fn law_tries_are_spaced(verb: Verb, reply: Reply, next: Next, attempt: u32)
    requires
        1 <= attempt <= 3,
        follows(verb, attempt, reply, next),
    ensures
        next is Done <==> reply is Success,
        next is WaitAndTry <==> !(reply is Success) && attempt <= 2,
        next is Fail <==> !(reply is Success) && attempt == 3 && verb is Upload,
        next is WaitAndFail <==> !(reply is Success) && attempt == 3 && !(verb is Upload),
        next matches Next::WaitAndTry(ms) ==> ms == 200 * attempt,
        next matches Next::WaitAndFail(ms, _) ==> ms == 600,
{
}

/// What is said of a last try names the verb first, then the number of the try,
/// and ends in what went wrong.
pub proof fn law_last_try_is_explained(verb: Verb, words: String, next: Next)
    ensures
        follows(verb, 3, Reply::Status(words), next) ==> {
            let e = match next {
                Next::Fail(e) => e,
                Next::WaitAndFail(_, e) => e,
                _ => OpenBoltError::InvalidPath,
            };
            e.wording() == "external command failed: "@ + (verb.word() + " failed (attempt "@
                + text::decimal(3) + "): "@ + words@)
        },
        follows(verb, 3, Reply::Failed(words), next) ==> {
            let e = match next {
                Next::Fail(e) => e,
                Next::WaitAndFail(_, e) => e,
                _ => OpenBoltError::InvalidPath,
            };
            e.wording() == "external command failed: "@ + (verb.word()
                + " request failed (attempt "@ + text::decimal(3) + "): "@ + words@)
        },
{
}

/// What is said of a request is what it holds.
pub proof fn law_request_is_seen_as_it_is(r: PeerRequest, e: OpenBoltError, words: Seq<char>)
    ensures
        r@.verb == r.verb,
        r@.url == r.url@,
        r.api_token matches Some(t) ==> r@.api_token == Some(t@),
        r.api_token is None ==> r@.api_token is None,
        r.file matches Some(f) ==> r@.file == Some((f.local_path@, f.file_name@)),
        r.file is None ==> r@.file is None,
        failed_with(e, words) ==> e.wording() == "external command failed: "@ + words,
        TOKEN_HEADER@ == "x-openbolt-token"@,
        MAX_TRIES == 3,
{
}

} // verus!
