//! The parameters and answers of the server's endpoints.
pub mod create_document;
pub mod delete_document;
pub mod fetch_document_version_content;
pub mod fetch_latest_document_version;
pub mod responses;
pub mod update_document;
pub mod websocket;
