//! The basic-auth header sent with every request when credentials are set.
use vstd::prelude::*;
use base64::Engine;

verus! {

/// Standard padded Base64 of the UTF-8 bytes of a text.
pub uninterp spec fn base64_of(s: Seq<char>) -> Seq<char>;

/// Relies on `base64::engine::general_purpose::STANDARD.encode` (base64
/// 0.22): the standard alphabet with padding, a function of the input bytes
/// alone. Its output buffer size cannot overflow for the length of any `str`.
#[verifier::external_body]
fn base64_standard(s: &str) -> (r: String)
    ensures
        r@ == base64_of(s@),
{
    base64::engine::general_purpose::STANDARD.encode(s)
}

/// `user:password`, the text that basic authentication encodes.
pub open spec fn credentials(user: Seq<char>, password: Seq<char>) -> Seq<char> {
    user + seq![':'] + password
}

/// The value of the `Authorization` header: none without credentials;
/// otherwise `Basic ` and the Base64 of `user:password`, a missing part being
/// empty.
pub fn basic_auth_header(user: &Option<String>, password: &Option<String>) -> (r: Option<String>)
    ensures
        (user is None && password is None) ==> r is None,
        !(user is None && password is None) ==> (r matches Some(h) && h@ == "Basic "@ + base64_of(
            credentials(
                match user {
                    Some(u) => u@,
                    None => Seq::<char>::empty(),
                },
                match password {
                    Some(p) => p@,
                    None => Seq::<char>::empty(),
                },
            ),
        )),
{
    if user.is_none() && password.is_none() {
        return None;
    }
    let mut cred = String::new();
    match user {
        Some(u) => cred.append(u.as_str()),
        None => {},
    }
    cred.append(":");
    match password {
        Some(p) => cred.append(p.as_str()),
        None => {},
    }
    proof {
        reveal_strlit(":");
    }
    assert(cred@ =~= credentials(
        match user {
            Some(u) => u@,
            None => Seq::<char>::empty(),
        },
        match password {
            Some(p) => p@,
            None => Seq::<char>::empty(),
        },
    ));
    let encoded = base64_standard(cred.as_str());
    let mut header = String::new();
    header.append("Basic ");
    header.append(encoded.as_str());
    Some(header)
}

} // verus!
