//! Fan-out core of an MJPEG streaming server.
//!
//! A capture loop produces one JPEG-encoded frame per tick and hands it to a
//! broadcaster, which offers it to every registered subscriber over a bounded
//! FIFO queue, dropping subscribers that do not keep up.  Each frame is
//! wrapped in a `multipart/x-mixed-replace` envelope before it goes on the
//! wire.  The registry, the queues, the framing and the per-tick policy are
//! verified here; camera access, JPEG encoding and the HTTP server are
//! outside collaborators.

pub mod broadcaster;
pub mod capture;
pub mod framer;
