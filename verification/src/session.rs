//! The cookie that carries a session's identifier.

use vstd::prelude::*;
use crate::definition::append_str;
use crate::text::string_of;

verus! {

/// The cookie that sets the session `session_id` for thirty days.
pub open spec fn session_cookie(session_id: Seq<char>) -> Seq<char> {
    "oxdraw_session="@ + session_id + "; Path=/; HttpOnly; SameSite=Lax; Max-Age=2592000"@
}

/// The cookie that sets the session `session_id`.
pub fn create_session_cookie(session_id: &str) -> (r: String)
    ensures
        r@ == session_cookie(session_id@),
{
    let mut out: Vec<char> = Vec::new();
    append_str(&mut out, "oxdraw_session=");
    append_str(&mut out, session_id);
    append_str(&mut out, "; Path=/; HttpOnly; SameSite=Lax; Max-Age=2592000");
    proof {
        assert(out@ =~= session_cookie(session_id@));
    }
    string_of(&out)
}

/// The cookie that ends the session: an empty value that expires at once.
pub fn clear_session_cookie() -> (r: String)
    ensures
        r@ == "oxdraw_session=; Path=/; HttpOnly; SameSite=Lax; Max-Age=0"@,
{
    let mut out: Vec<char> = Vec::new();
    append_str(&mut out, "oxdraw_session=; Path=/; HttpOnly; SameSite=Lax; Max-Age=0");
    proof {
        assert(out@ =~= "oxdraw_session=; Path=/; HttpOnly; SameSite=Lax; Max-Age=0"@);
    }
    string_of(&out)
}

} // verus!
