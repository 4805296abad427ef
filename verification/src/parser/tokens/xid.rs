use unicode_xid::UnicodeXID;
use vstd::prelude::*;

verus! {

/// Whether `c` has the Unicode property `XID_Start`, as the `unicode-xid`
/// crate's tables say.
pub uninterp spec fn xid_start(c: char) -> bool;

/// Whether `c` has the Unicode property `XID_Continue`, as the `unicode-xid`
/// crate's tables say.
pub uninterp spec fn xid_continue(c: char) -> bool;

/// Calls `UnicodeXID::is_xid_start` of the `unicode-xid` crate. Its result is
/// named `xid_start`; the crate's source answers ASCII characters without its
/// tables (exactly the letters), which the contract states. Which non-ASCII
/// characters are accepted is left to the crate's tables and not stated.
#[verifier::external_body]
pub(crate) fn is_xid_start(c: char) -> (r: bool)
    ensures
        r == xid_start(c),
        (c as u32) < 0x80 ==> (r <==> ('a' <= c && c <= 'z') || ('A' <= c && c <= 'Z')),
{
    c.is_xid_start()
}

/// Calls `UnicodeXID::is_xid_continue` of the `unicode-xid` crate. Its result
/// is named `xid_continue`; for ASCII characters the crate's source accepts
/// exactly the letters, the digits and `_`, which the contract states. The
/// non-ASCII characters it accepts are left to the crate's tables.
#[verifier::external_body]
pub(crate) fn is_xid_continue(c: char) -> (r: bool)
    ensures
        r == xid_continue(c),
        (c as u32) < 0x80 ==> (r <==> ('a' <= c && c <= 'z') || ('A' <= c && c <= 'Z') || ('0'
            <= c && c <= '9') || c == '_'),
{
    c.is_xid_continue()
}

} // verus!
