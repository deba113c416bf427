//! The verified core of a small MCP tool server: document chunking and
//! LLM triage over stored documents, line search and paged reads of stored
//! documents, document ids, man-page lookup rules, request routing, the
//! JSON object of a model reply, and the text every tool renders.

pub mod text;
pub mod chunk;
pub mod rank;
pub mod triage_doc;
pub mod man_page;
pub mod read_doc;
pub mod store;
pub mod fetch_url;
pub mod search_web;
pub mod search_doc;
pub mod llm;
pub mod server;
