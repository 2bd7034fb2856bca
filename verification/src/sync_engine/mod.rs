//! Folder synchronisation: what is sent, pulled, retried, skipped and logged.

pub mod batch;
pub mod inbound;
pub mod log;
pub mod preview;
pub mod recent;
pub mod request;
pub mod retry;
pub mod session;
pub mod transfer;

use vstd::prelude::*;

use crate::text;

verus! {

/// Whether changes at the peer are pulled too.
#[derive(Clone, Copy, Debug, PartialEq, Eq, Structural)]
pub enum SyncDirection {
    Outbound,
    Bidirectional,
}

/// What a change of a file asks for.
#[derive(Clone, Copy, Debug, PartialEq, Eq, Structural)]
pub enum SyncAction {
    Upsert,
    Delete,
}

/// A changed path.
#[derive(Debug)]
pub struct SyncEvent {
    pub path: String,
    pub action: SyncAction,
}

/// A path that got another name.
#[derive(Debug)]
pub struct RenameEvent {
    pub from: String,
    pub to: String,
}

/// What the peer says of one of its paths.
#[derive(Clone, Copy, Debug)]
pub struct RemoteStat {
    pub exists: bool,
    pub is_dir: bool,
    pub size: Option<u64>,
    pub mtime: Option<u64>,
}

/// One entry of a folder of the peer.
#[derive(Debug)]
pub struct RemoteFsEntry {
    pub name: String,
    pub is_dir: bool,
    pub size: u64,
    pub mtime: u64,
}

impl Clone for RemoteFsEntry {
    fn clone(&self) -> (r: Self)
        ensures
            r == *self,
    {
        RemoteFsEntry {
            name: self.name.clone(),
            is_dir: self.is_dir,
            size: self.size,
            mtime: self.mtime,
        }
    }
}

/// The path at the peer that stands for `rel` below the synchronised folder.
pub open spec fn remote_path(base: Seq<char>, rel: Seq<char>) -> Seq<char> {
    text::trim_end_slash(base) + "/"@ + text::map_char(rel, '\\', '/')
}

/// The path at the peer that stands for `relative` below the synchronised
/// folder.
pub fn join_remote_path(remote_base: &str, relative: &str) -> (r: String)
    ensures
        r@ == remote_path(remote_base@, relative@),
{
    let mut out: String = text::trim_end_slash_text(remote_base);
    out.append("/");
    out.append(text::replace_char(relative, '\\', '/').as_str());
    out
}

/// Without backslashes the peer's path is the base, a slash and the relative
/// path; slashes at the end of the base do not count.
pub proof fn lemma_remote_path(base: Seq<char>, rel: Seq<char>)
    requires
        forall|i: int| 0 <= i < rel.len() ==> #[trigger] rel[i] != '\\',
    ensures
        remote_path(base, rel) == text::trim_end_slash(base).push('/') + rel,
{
    reveal_strlit("/");
    assert(text::map_char(rel, '\\', '/') =~= rel);
    assert(remote_path(base, rel) =~= text::trim_end_slash(base).push('/') + rel);
}

/// The path at the peer is the base, one slash and the path below the folder,
/// with slashes for backslashes, however many slashes follow the base.
pub proof fn law_path_at_the_peer(base: Seq<char>, rel: Seq<char>)
    requires
        base.len() > 0 ==> base.last() != '/',
    ensures
        !rel.contains('\\') ==> remote_path(base, rel) == base + "/"@ + rel,
        remote_path(base, rel) == remote_path(base, text::map_char(rel, '\\', '/')),
        remote_path(base.push('/'), rel) == remote_path(base, rel),
{
    let m = text::map_char(rel, '\\', '/');
    assert(text::trim_end_slash(base) == base);
    assert(base.push('/').drop_last() =~= base);
    assert(text::only('/')('/'));
    assert(text::trim_end_slash(base.push('/')) == base);
    assert(text::map_char(m, '\\', '/') =~= m);
    if !rel.contains('\\') {
        assert forall|i: int| 0 <= i < rel.len() implies m[i] == rel[i] by {
            assert(rel.contains(rel[i]));
        }
        assert(m =~= rel);
    }
}

} // verus!
