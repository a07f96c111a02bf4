//! The event record that a transition hands back to the host.

use vstd::prelude::*;
use cosmwasm_std::{Empty, Response};

verus! {

/// `cosmwasm_std::Empty`, which stands for "no custom message", carried through
/// without a look inside.
#[verifier::external_type_specification]
#[verifier::external_body]
pub struct ExEmpty(Empty);

/// `cosmwasm_std::Response`, what a transition hands back to the host, carried through
/// without a look inside.
#[verifier::external_type_specification]
#[verifier::external_body]
#[verifier::reject_recursive_types(T)]
pub struct ExResponse<T>(Response<T>);

/// The attributes of a response, each as (key, value), in the order in which they
/// were added.
pub uninterp spec fn response_attributes(r: Response) -> Seq<(Seq<char>, Seq<char>)>;

/// Whether a response carries nothing but attributes: no messages, no further
/// events and no data.
pub uninterp spec fn response_is_plain(r: Response) -> bool;

/// `Response::new`: a response without attributes, messages, events or data.
#[verifier::external_body]
pub(crate) fn response_new() -> (r: Response)
    ensures
        response_attributes(r) == Seq::<(Seq<char>, Seq<char>)>::empty(),
        response_is_plain(r),
{
    Response::new()
}

/// `Response::add_attribute`: the same response with one more attribute at the end,
/// its messages, events and data untouched. The outside function panics on a key that
/// starts with an underscore.
#[verifier::external_body]
pub(crate) fn response_add_attribute(r: Response, key: &str, value: &str) -> (out: Response)
    requires
        key@.len() == 0 || key@[0] != '_',
    ensures
        response_attributes(out) == response_attributes(r).push((key@, value@)),
        response_is_plain(out) == response_is_plain(r),
{
    r.add_attribute(key, value)
}

/// The attributes of the event that reports a mint.
pub open spec fn mint_attributes(sender: Seq<char>, token_id: Seq<char>) -> Seq<
    (Seq<char>, Seq<char>),
> {
    seq![("action"@, "mint"@), ("minter"@, sender), ("token_id"@, token_id)]
}

/// The response to a mint: the event `action=mint`, `minter=<sender>`,
/// `token_id=<token_id>`, and nothing else.
pub fn mint_event(sender: &str, token_id: &str) -> (r: Response)
    ensures
        response_attributes(r) == mint_attributes(sender@, token_id@),
        response_is_plain(r),
{
    proof {
        reveal_strlit("action");
        reveal_strlit("minter");
        reveal_strlit("token_id");
    }
    let r = response_new();
    let r = response_add_attribute(r, "action", "mint");
    let r = response_add_attribute(r, "minter", sender);
    let r = response_add_attribute(r, "token_id", token_id);
    assert(response_attributes(r) =~= mint_attributes(sender@, token_id@));
    r
}

/// The response to a request that reports nothing.
pub fn empty_response() -> (r: Response)
    ensures
        response_attributes(r) == Seq::<(Seq<char>, Seq<char>)>::empty(),
        response_is_plain(r),
{
    response_new()
}

} // verus!
