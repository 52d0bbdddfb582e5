//! The Hub API: sources, requests and what is made of the replies.

pub mod client;
pub mod http;
pub mod requests;
pub mod source;

pub use client::{
    BatchOp, CasTokenInfo, HubApiClient, RemotePath, RepoTreeEntry, RevisionProbe, TokenKind,
    TreeEntry,
};
pub use http::{
    mtime_from_http_date, mtime_from_str, parse_link_next, parse_retry_delay, retry_delay,
    HeadFileInfo,
};
pub use source::{parse_repo_id, split_path_prefix, RepoType, SourceKind};
