//! Core decisions of the live777 media server's side services: the upload
//! queue of the recorder, the data-channel forwarders and the small admin and
//! storage routes, written as verified functions over plain values.

pub mod forward;
pub mod keyed;
pub mod outside;
pub mod routes;
pub mod text;
pub mod uploader;
