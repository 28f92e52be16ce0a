//! Git history for a world folder, as a conversation with `git`: each
//! operation is a function from what it was asked to do, and the replies
//! to the requests it has made so far, to its next request or its
//! outcome. The caller performs each request (runs `git`, checks the
//! world's lock file, reads or writes a file) and hands back the reply.
pub mod compare;
pub mod history;
pub mod laws;
pub mod merge;
pub mod protocol;
