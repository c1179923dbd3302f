//! The application's data shapes, modeled with plain values: identifiers
//! as their text, timestamps as epoch seconds.  Database access, routing
//! and serialization live at the application edge; the core only carries
//! these values.

use vstd::prelude::*;

verus! {

/// A stored user.
#[derive(Debug, PartialEq, Eq)]
pub struct User {
    pub id: String,
    pub name: String,
    pub email: String,
    pub profile_pic_url: String,
    pub bio: String,
}

/// The public part of a profile, shown beside a post.
#[derive(Debug, PartialEq, Eq)]
pub struct ProfilePublic {
    pub id: String,
    pub name: String,
    pub profile_pic_url: String,
    pub bio: String,
    pub verified: bool,
}

/// Whether a post offers supplies or asks for them.
#[derive(Debug, PartialEq, Eq, Structural, Clone, Copy)]
pub enum PostType {
    Needs,
    Supplies,
}

/// A stored post.
#[derive(Debug, PartialEq, Eq)]
pub struct Post {
    pub id: String,
    pub userid: String,
    pub post_type: PostType,
    pub state: String,
    pub district: String,
    pub city: String,
    pub spot: String,
    pub created_at: i64,
    pub updated_at: i64,
    pub item: String,
    pub quantity: String,
    pub message: String,
}

/// A post as a client submits it.
#[derive(Debug, PartialEq, Eq)]
pub struct PostNew {
    pub post_type: PostType,
    pub state: String,
    pub district: String,
    pub city: String,
    pub spot: String,
    pub message: String,
    pub item: String,
    pub quantity: String,
}

/// A profile update as a client submits it.
#[derive(Debug, PartialEq, Eq)]
pub struct UpdateProfile {
    pub bio: String,
}

/// What a handler answers: a payload, an expected error with its own
/// status, or an internal failure carrying its description.
pub enum MyRes<T, E> {
    OkRes(T),
    ErrRes(E),
    Fail(String),
}

/// The HTTP status an expected error answers with.
pub trait HasStatusCode {
    fn get_status(&self) -> u16;
}

impl HasStatusCode for () {
    /// An absent resource.
    fn get_status(&self) -> (r: u16)
        ensures
            r == 404,
    {
        404
    }
}

/// A value paired with the logging edge's serializer at the application
/// boundary; the core only wraps it.
pub struct WrapSerde<T>(pub T);

} // verus!
