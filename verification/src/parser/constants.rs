//! Lengths, field prefixes and indicator keywords of the log format.

use vstd::prelude::*;

verus! {

/// Length of the timestamp `YYYY-MM-DD HH:MM:SS.mmm`.
pub const TIMESTAMP_LENGTH: usize = 23;

/// Minimum length of a record start line.
pub const MIN_RECORD_LENGTH: usize = 25;

/// Index where the meta fields begin (after the timestamp, a space and `(`).
pub const META_START_INDEX: usize = 25;

/// Offset of the body from the closing parenthesis (`) `).
pub const BODY_OFFSET: usize = 2;

/// Prefix of the session id field.
pub const SESS_PREFIX: &'static str = "sess:";

/// Prefix of the thread id field.
pub const THRD_PREFIX: &'static str = "thrd:";

/// Prefix of the user name field.
pub const USER_PREFIX: &'static str = "user:";

/// Prefix of the transaction id field.
pub const TRXID_PREFIX: &'static str = "trxid:";

/// Prefix of the statement id field.
pub const STMT_PREFIX: &'static str = "stmt:";

/// Prefix of the application name field.
pub const APPNAME_PREFIX: &'static str = "appname:";

/// Prefix of the client IP field.
pub const IP_PREFIX: &'static str = "ip:::ffff:";

/// Prefix of the execution time indicator.
pub const EXECTIME_PREFIX: &'static str = "EXECTIME: ";

/// Suffix of the execution time indicator.
pub const EXECTIME_SUFFIX: &'static str = "(ms)";

/// Prefix of the row count indicator.
pub const ROWCOUNT_PREFIX: &'static str = "ROWCOUNT: ";

/// Suffix of the row count indicator.
pub const ROWCOUNT_SUFFIX: &'static str = "(rows)";

/// Prefix of the execution id indicator.
pub const EXEC_ID_PREFIX: &'static str = "EXEC_ID: ";

/// Suffix of the execution id indicator.
pub const EXEC_ID_SUFFIX: &'static str = ".";

/// The indicator keywords, in the order in which they are looked for.
pub fn indicator_patterns() -> (r: [&'static str; 3])
    ensures
        r@[0] == "EXECTIME:",
        r@[1] == "ROWCOUNT:",
        r@[2] == "EXEC_ID:",
{
    ["EXECTIME:", "ROWCOUNT:", "EXEC_ID:"]
}

} // verus!
