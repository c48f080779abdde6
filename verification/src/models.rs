//! Request, response and configuration shapes the routing layer
//! exchanges with the core, and the process-wide value cell the
//! configuration snapshot lives in.

use vstd::prelude::*;

verus! {

/// Health probe result: the service is healthy exactly when its
/// database connection is.
pub struct Health {
    pub db: bool,
}

impl Health {
    pub fn is_healthy(&self) -> (r: bool)
        ensures
            r == self.db,
    {
        self.db
    }
}

/// One page of listed items, with the filled-window approximation of
/// whether more rows may follow.
pub struct Pagination<T> {
    pub has_more: bool,
    pub items: Vec<T>,
}

impl<T> Pagination<T> {
    pub fn new(has_more: bool, items: Vec<T>) -> (r: Pagination<T>)
        ensures
            r.has_more == has_more,
            r.items@ == items@,
    {
        Pagination { has_more, items }
    }
}

/// The row-level window a listing applies before folding.
pub struct OffsetAndLimit {
    pub offset: Option<usize>,
    pub limit: Option<usize>,
}

pub struct FilesQuery {
    pub path: Option<String>,
}

pub struct FileQuery {
    pub path: String,
}

pub struct FilesAndFoldersQuery {
    pub key: String,
}

pub struct ObjectsQuery {
    pub path: Option<String>,
}

pub struct ObjectQuery {
    pub path: String,
}

pub struct CreateFileRequest {
    pub path: String,
    pub kind: Option<String>,
}

pub struct MoveFileRequest {
    pub path: String,
    pub kind: Option<String>,
}

pub struct CreateObjectRequest {
    pub path: String,
    pub kind: Option<String>,
}

impl CreateObjectRequest {
    pub fn new(path: String) -> (r: CreateObjectRequest)
        ensures
            r.path@ == path@,
            r.kind is None,
    {
        CreateObjectRequest { path, kind: None }
    }
}

pub struct MoveObjectRequest {
    pub path: String,
    pub kind: Option<String>,
}

/// How many bytes an append call took in.
pub struct UploadResponse {
    pub written: usize,
}

pub struct CreateAccessRequest {
    pub admin: Option<bool>,
}

/// Already-verified claims an outside identity service hands back for
/// a bearer token.
pub struct Claims {
    pub kind: String,
    pub exp: i64,
    pub iat: i64,
    pub nbf: i64,
    pub iss: String,
    pub aud: Option<String>,
    pub sub_type: String,
    pub sub: i64,
    pub app: i64,
    pub scopes: Vec<String>,
}

/// Credentials a signaling server is asked to authenticate.
pub struct ServerAuthenticateRequest {
    pub id: String,
    pub password: String,
}

/// Connection-pool settings, loaded once at startup.
pub struct DatabaseConfig {
    pub url: String,
    pub min_connections: u32,
    pub max_connections: u32,
    pub connect_timeout: u64,
    pub acquire_timeout: u64,
    pub idle_timeout: u64,
    pub max_lifetime: u64,
}

/// A process-wide slot for an immutable snapshot, set whole and read
/// whole; the embedding process is in charge of sharing it safely.
pub struct AtomicValue<T> {
    pub value: Option<T>,
}

impl<T> AtomicValue<T> {
    pub fn new(value: T) -> (r: AtomicValue<T>)
        ensures
            r.value == Some(value),
    {
        AtomicValue { value: Some(value) }
    }

    pub fn empty() -> (r: AtomicValue<T>)
        ensures
            r.value is None,
    {
        AtomicValue { value: None }
    }

    pub fn is_empty(&self) -> (r: bool)
        ensures
            r == (self.value is None),
    {
        self.value.is_none()
    }

    /// Replace the held snapshot.
    pub fn set(&mut self, value: T)
        ensures
            final(self).value == Some(value),
    {
        self.value = Some(value);
    }
}

impl<T: Clone> AtomicValue<T> {
    /// A copy of the held snapshot; the slot must be filled.
    pub fn get(&self) -> (r: T)
        requires
            self.value is Some,
        ensures
            vstd::pervasive::cloned::<T>(self.value->Some_0, r),
    {
        self.value.as_ref().unwrap().clone()
    }
}

} // verus!
