//! Plain data shapes of the surrounding service: token claims and the
//! create/update request bodies that arrive at its edges. They carry no
//! behaviour of their own; the indexing layer receives their content as
//! documents.

use vstd::prelude::*;

verus! {

/// The claims carried by an authentication token.
pub struct Claims {
    pub sub: String,
    pub exp: i64,
    pub iat: i64,
    pub admin: bool,
}

pub struct CreateBlogPostRequest {
    pub title: String,
    pub content: String,
    pub tags: Vec<String>,
    pub published: bool,
    pub featured_image: Option<String>,
}

pub struct UpdateBlogPostRequest {
    pub title: Option<String>,
    pub content: Option<String>,
    pub tags: Option<Vec<String>>,
    pub published: Option<bool>,
    pub featured_image: Option<String>,
}

pub struct CreateCommentRequest {
    pub content: String,
}

pub struct UpdateProgressRequest {
    pub completed: bool,
}

pub struct CreatePortfolioItemRequest {
    pub title: String,
    pub description: String,
    pub technologies: Vec<String>,
    pub image_urls: Vec<String>,
    pub project_url: Option<String>,
    pub github_url: Option<String>,
}

pub struct UpdatePortfolioItemRequest {
    pub title: Option<String>,
    pub description: Option<String>,
    pub technologies: Option<Vec<String>>,
    pub image_urls: Option<Vec<String>>,
    pub project_url: Option<String>,
    pub github_url: Option<String>,
}

pub struct CreateUserRequest {
    pub email: String,
    pub password: Option<String>,
    pub full_name: String,
    pub web3_wallet: Option<String>,
}

pub struct LoginRequest {
    pub email: String,
    pub password: String,
}

pub struct Web3LoginRequest {
    pub wallet_address: String,
    pub message: String,
    pub signature: String,
}

pub struct SocialLinks {
    pub twitter: Option<String>,
    pub linkedin: Option<String>,
    pub github: Option<String>,
    pub website: Option<String>,
}

} // verus!
